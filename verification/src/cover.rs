use vstd::prelude::*;
use crate::bytes::{append_bytes8, append_vec, sub_vec};
use crate::errors::Error;
use crate::trailer::{decode, decode_spec, encode, encode_spec, meta_wf, Metadata};

verus! {

/// Ceiling that the Windows loader puts on the size of a PE image; a cover
/// must stay at or below it after payload and trailer are appended.
pub const PE_SIZE_LIMIT: u32 = 0x7FFF_FFFF;

/// `PE_SIZE_LIMIT` minus the 8 trailer bytes.
pub const PE_APPEND_LIMIT: usize = 0x7FFF_FFF7;

/// What parsing raw cover bytes yields: the record decoded from the last 8
/// bytes, or nothing when the stream is shorter than a trailer or the record
/// fails the semantic checks.
pub open spec fn parse_spec(c: Seq<u8>) -> Option<Metadata> {
    if c.len() < 8 {
        None
    } else {
        decode_spec(c.subrange(c.len() - 8, c.len() as int))
    }
}

/// The payload chunk announced by `m`: the bytes immediately before the
/// trailer.
pub open spec fn payload_spec(c: Seq<u8>, m: Metadata) -> Seq<u8> {
    c.subrange(c.len() - 8 - m.payload_size, c.len() - 8)
}

/// The cover really holds the payload bytes its trailer announces.
pub open spec fn chunk_readable(c: Seq<u8>, m: Metadata) -> bool {
    c.len() >= m.payload_size + 8
}

/// A byte stream a payload chunk can be hidden in.
pub trait Cover {
    /// The bytes of the underlying stream.
    spec fn contents(&self) -> Seq<u8>;

    /// Hide the payload inside this cover together with the metadata record:
    /// payload and encoded trailer are appended, the pre-existing bytes are
    /// never touched. Rejected when the grown cover would pass the PE size
    /// ceiling, in which case the cover is unchanged.
    fn cover(&mut self, src: &Vec<u8>, meta: &Metadata) -> (r: Result<(), Error>)
        requires
            meta.payload_size == src@.len(),
            meta_wf(*meta),
        ensures
            match r {
                Ok(()) => old(self).contents().len() + src@.len() + 8 <= PE_SIZE_LIMIT
                    && final(self).contents() == old(self).contents() + src@ + encode_spec(*meta),
                Err(e) => e is CoverTooLarge && old(self).contents().len() + src@.len() + 8
                    > PE_SIZE_LIMIT && final(self).contents() == old(self).contents(),
            },
    ;
}

/// A byte stream a payload chunk can be recovered from.
pub trait Uncover {
    /// The bytes of the underlying stream.
    spec fn contents(&self) -> Seq<u8>;

    /// The record remembered by a successful `parse`.
    spec fn parsed(&self) -> Option<Metadata>;

    /// Decode and validate the trailer at the end of the stream and remember
    /// it for `meta` and `uncover`. Every failure surfaces as `NotACover`:
    /// the caller learns that the file most likely hides nothing, not which
    /// sub-check failed.
    fn parse(&mut self) -> (r: Result<(), Error>)
        ensures
            final(self).contents() == old(self).contents(),
            match r {
                Ok(()) => final(self).parsed() == parse_spec(final(self).contents()) && final(self).parsed() is Some,
                Err(e) => e is NotACover && parse_spec(final(self).contents()) is None
                    && final(self).parsed() == old(self).parsed(),
            },
    ;

    /// Append the payload chunk this cover carries to `dest`. Fails, with
    /// `dest` untouched, when the stream is too short for the payload its
    /// trailer announces.
    fn uncover(&self, dest: &mut Vec<u8>) -> (r: Result<(), Error>)
        requires
            self.parsed() is Some,
        ensures
            match r {
                Ok(()) => chunk_readable(self.contents(), self.parsed()->Some_0) && final(dest)@
                    == old(dest)@ + payload_spec(self.contents(), self.parsed()->Some_0),
                Err(e) => e is IOError && !chunk_readable(self.contents(), self.parsed()->Some_0)
                    && final(dest)@ == old(dest)@,
            },
    ;

    /// The metadata for the hidden payload; `parse` must have succeeded.
    fn meta(&self) -> (r: Result<Metadata, Error>)
        ensures
            match r {
                Ok(m) => self.parsed() == Some(m),
                Err(e) => e is NotACover && self.parsed() is None,
            },
    ;
}

/// Writing adapter for MZ/PE covers: payload and trailer live in the file's
/// physical-but-not-mapped tail, so no structural parsing of the PE is done.
pub struct MZPECover {
    data: Vec<u8>,
}

impl MZPECover {
    /// Wrap the bytes of a cover file.
    pub fn from(data: Vec<u8>) -> (r: MZPECover)
        ensures
            r.contents() == data@,
    {
        MZPECover { data }
    }

    /// Hand the (possibly grown) cover bytes back.
    pub fn into_inner(self) -> (r: Vec<u8>)
        ensures
            r@ == self.contents(),
    {
        self.data
    }
}

impl Cover for MZPECover {
    closed spec fn contents(&self) -> Seq<u8> {
        self.data@
    }

    fn cover(&mut self, src: &Vec<u8>, meta: &Metadata) -> (r: Result<(), Error>) {
        if self.data.len() > PE_APPEND_LIMIT || src.len() > PE_APPEND_LIMIT - self.data.len() {
            return Err(Error::CoverTooLarge);
        }
        append_vec(&mut self.data, src);
        let tr = encode(meta);
        append_bytes8(&mut self.data, &tr);
        Ok(())
    }
}

/// Reading adapter for MZ/PE covers.
pub struct MZPEUncover {
    data: Vec<u8>,
    meta: Option<Metadata>,
}

impl MZPEUncover {
    /// Wrap the bytes of a cover file; nothing is parsed yet.
    pub fn from(data: Vec<u8>) -> (r: MZPEUncover)
        ensures
            r.contents() == data@,
            r.parsed() is None,
    {
        MZPEUncover { data, meta: None }
    }
}

impl Uncover for MZPEUncover {
    closed spec fn contents(&self) -> Seq<u8> {
        self.data@
    }

    closed spec fn parsed(&self) -> Option<Metadata> {
        self.meta
    }

    fn parse(&mut self) -> (r: Result<(), Error>) {
        let n = self.data.len();
        if n < 8 {
            return Err(Error::NotACover(0));
        }
        let b: [u8; 8] = [
            self.data[n - 8],
            self.data[n - 7],
            self.data[n - 6],
            self.data[n - 5],
            self.data[n - 4],
            self.data[n - 3],
            self.data[n - 2],
            self.data[n - 1],
        ];
        proof {
            assert(b@ =~= self.data@.subrange(n - 8, n as int));
        }
        match decode(&b) {
            Ok(m) => {
                self.meta = Some(m);
                Ok(())
            },
            Err(_) => Err(Error::NotACover(0)),
        }
    }

    fn uncover(&self, dest: &mut Vec<u8>) -> (r: Result<(), Error>) {
        let m = self.meta.unwrap();
        let ps = m.payload_size as usize;
        if self.data.len() < 8 || ps > self.data.len() - 8 {
            return Err(Error::IOError);
        }
        let start = self.data.len() - 8 - ps;
        let chunk = sub_vec(&self.data, start, self.data.len() - 8);
        append_vec(dest, &chunk);
        Ok(())
    }

    fn meta(&self) -> (r: Result<Metadata, Error>) {
        match self.meta {
            Some(m) => Ok(m),
            None => Err(Error::NotACover(0)),
        }
    }
}

} // verus!
