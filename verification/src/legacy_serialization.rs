//! The earlier treemap serialization interface: a treemap writes itself and
//! reads itself back, with I/O-style errors. The native format of this
//! interface is what the C++ implementation writes (the portable format of
//! treemaps); the JVM format is the one of the Java implementation.
use crate::serialization::{JvmLegacy, Portable};
use crate::treemap::Treemap;
use crate::treemap_serialization::{map_views, Deserializer, Serializer as TreemapFormat};
use vstd::prelude::*;

verus! {

#[verifier::external_type_specification]
#[verifier::external_body]
pub struct ExIoError(std::io::Error);

/// `std::io::Error::from(std::io::ErrorKind::InvalidData)`: the error for input
/// that is not a valid serialization. Nothing is claimed of the value.
#[verifier::external_body]
fn invalid_data() -> std::io::Error {
    std::io::Error::from(std::io::ErrorKind::InvalidData)
}

/// Marks the types that serialize themselves.
pub trait Serializer {

}

/// Serialization compatible with the C++ implementation of 64-bit roaring maps.
pub trait NativeSerializer: Serializer {
    /// What deserialization gives.
    type Item;

    /// The bytes written for `self`, when it can be written.
    spec fn native_bytes(&self) -> Option<Seq<u8>>;

    /// Whether reading `b` may give `item`.
    spec fn native_reads(b: Seq<u8>, item: Self::Item) -> bool;

    /// Whether `b` is rejected.
    spec fn native_rejects(b: Seq<u8>) -> bool;

    /// The serialized bytes.
    fn serialize(&self) -> (r: Result<Vec<u8>, std::io::Error>)
        ensures
            match r {
                Ok(v) => self.native_bytes() == Some(v@),
                Err(_) => self.native_bytes() is None,
            },
    ;

    /// Reads a value back from the start of `buffer`.
    fn deserialize(buffer: &[u8]) -> (r: Result<Self::Item, std::io::Error>)
        ensures
            match r {
                Ok(item) => Self::native_reads(buffer@, item),
                Err(_) => Self::native_rejects(buffer@),
            },
    ;
}

/// Serialization compatible with the Java implementation of 64-bit roaring maps.
pub trait JvmSerializer: Serializer {
    /// What deserialization gives.
    type Item;

    /// The bytes written for `self`, when it can be written.
    spec fn jvm_bytes(&self) -> Option<Seq<u8>>;

    /// Whether reading `b` may give `item`.
    spec fn jvm_reads(b: Seq<u8>, item: Self::Item) -> bool;

    /// Whether `b` is rejected.
    spec fn jvm_rejects(b: Seq<u8>) -> bool;

    /// The serialized bytes.
    fn serialize(&self) -> (r: Result<Vec<u8>, std::io::Error>)
        ensures
            match r {
                Ok(v) => self.jvm_bytes() == Some(v@),
                Err(_) => self.jvm_bytes() is None,
            },
    ;

    /// Reads a value back from the start of `buffer`.
    fn deserialize(buffer: &[u8]) -> (r: Result<Self::Item, std::io::Error>)
        ensures
            match r {
                Ok(item) => Self::jvm_reads(buffer@, item),
                Err(_) => Self::jvm_rejects(buffer@),
            },
    ;
}

impl Serializer for Treemap {

}

impl NativeSerializer for Treemap {
    type Item = Treemap;

    open spec fn native_bytes(&self) -> Option<Seq<u8>> {
        Some(<Portable as TreemapFormat>::serialized(self.map@))
    }

    open spec fn native_reads(b: Seq<u8>, item: Treemap) -> bool {
        <Portable as Deserializer>::deserialized(b) matches Some((m, _)) && map_views(item.map@) == m
    }

    open spec fn native_rejects(b: Seq<u8>) -> bool {
        <Portable as Deserializer>::deserialized(b) is None
    }

    fn serialize(&self) -> (r: Result<Vec<u8>, std::io::Error>) {
        Ok(self.serialize::<Portable>())
    }

    fn deserialize(buffer: &[u8]) -> (r: Result<Treemap, std::io::Error>) {
        match <Portable as Deserializer>::try_deserialize(buffer) {
            Some((t, _)) => Ok(t),
            None => Err(invalid_data()),
        }
    }
}

impl JvmSerializer for Treemap {
    type Item = Treemap;

    open spec fn jvm_bytes(&self) -> Option<Seq<u8>> {
        if <JvmLegacy as TreemapFormat>::fits(self.map@) {
            Some(<JvmLegacy as TreemapFormat>::serialized(self.map@))
        } else {
            None
        }
    }

    open spec fn jvm_reads(b: Seq<u8>, item: Treemap) -> bool {
        <JvmLegacy as Deserializer>::deserialized(b) matches Some((m, _)) && map_views(item.map@) == m
    }

    open spec fn jvm_rejects(b: Seq<u8>) -> bool {
        <JvmLegacy as Deserializer>::deserialized(b) is None
    }

    fn serialize(&self) -> (r: Result<Vec<u8>, std::io::Error>) {
        let count = self.map.len();
        proof {
            assert(map_views(self.map@).dom() =~= self.map@.dom());
        }
        if count > u32::MAX as usize {
            return Err(invalid_data());
        }
        Ok(self.serialize::<JvmLegacy>())
    }

    fn deserialize(buffer: &[u8]) -> (r: Result<Treemap, std::io::Error>) {
        match <JvmLegacy as Deserializer>::try_deserialize(buffer) {
            Some((t, _)) => Ok(t),
            None => Err(invalid_data()),
        }
    }
}

} // verus!
