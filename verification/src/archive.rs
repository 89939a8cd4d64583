use vstd::prelude::*;
use vstd::utf8::encode_utf8;
use crate::errors::Error;

verus! {

/// XZ preset used for the per-entry compression.
pub const XZ_PRESET: u32 = 6;

/// Longest entry name, in UTF-8 bytes, that the container can record: its
/// name-length field is 16 bits wide.
pub const MAX_NAME_BYTES: usize = 0xFFFF;

/// The entries (name, bytes per entry, in index order) that reading an
/// in-memory ZIP container yields, or nothing when the container or any of
/// its entries cannot be read, or when an entry is not stored with
/// compression method Stored.
pub uninterp spec fn unzip_of(blob: Seq<u8>) -> Option<Seq<(Seq<char>, Seq<u8>)>>;

/// The container bytes that writing an entry list into an in-memory ZIP
/// yields, or nothing when writing fails.
pub uninterp spec fn zip_of(es: Seq<(Seq<char>, Seq<u8>)>) -> Option<Seq<u8>>;

/// The XZ (LZMA2) stream for the given bytes at the given preset.
pub uninterp spec fn xz_enc(data: Seq<u8>, preset: u32) -> Seq<u8>;

/// What decoding an XZ stream yields: the original bytes, or nothing when
/// the stream is not valid XZ.
pub uninterp spec fn xz_dec(data: Seq<u8>) -> Option<Seq<u8>>;

/// The mathematical view of an entry list: names as character sequences,
/// contents as byte sequences.
pub open spec fn entries_view(es: Seq<(String, Vec<u8>)>) -> Seq<(Seq<char>, Seq<u8>)> {
    es.map_values(|e: (String, Vec<u8>)| (e.0@, e.1@))
}

/// Every entry name's UTF-8 encoding fits the container's 16-bit name
/// length field.
pub open spec fn names_fit(es: Seq<(Seq<char>, Seq<u8>)>) -> bool {
    forall|i: int| 0 <= i < es.len() ==> (#[trigger] encode_utf8(es[i].0)).len() <= MAX_NAME_BYTES
}

/// The entry list as it stands inside the container: names kept, each
/// entry's bytes the XZ stream of the input bytes at the fixed preset.
pub open spec fn archived_entries(es: Seq<(Seq<char>, Seq<u8>)>) -> Seq<(Seq<char>, Seq<u8>)> {
    es.map_values(|e: (Seq<char>, Seq<u8>)| (e.0, xz_enc(e.1, XZ_PRESET)))
}

/// What extracting an archive blob yields: the container's entries, each
/// entry's stored bytes run through the XZ decoder; nothing when the
/// container is unreadable or any entry is not a valid XZ stream.
pub open spec fn unarchive_spec(blob: Seq<u8>) -> Option<Seq<(Seq<char>, Seq<u8>)>> {
    match unzip_of(blob) {
        Some(es) => if forall|i: int| 0 <= i < es.len() ==> (#[trigger] xz_dec(es[i].1)) is Some {
            Some(Seq::new(es.len(), |i: int| (es[i].0, xz_dec(es[i].1)->Some_0)))
        } else {
            None
        },
        None => None,
    }
}

/// Relies on xz2::read::XzEncoder: the XZ stream for given bytes and preset
/// is a pure function of the two, and decoding it gives the bytes back.
/// Compressing from an in-memory slice cannot fail for a preset in 0..=9.
#[verifier::external_body]
fn xz_compress(data: &Vec<u8>, preset: u32) -> (r: Vec<u8>)
    requires
        preset <= 9,
    ensures
        r@ == xz_enc(data@, preset),
        xz_dec(r@) == Some(data@),
{
    let mut enc = xz2::read::XzEncoder::new(data.as_slice(), preset);
    let mut out = Vec::new();
    std::io::Read::read_to_end(&mut enc, &mut out).unwrap();
    out
}

/// Relies on xz2::read::XzDecoder: decoding is a pure function of the
/// stream, and a stream that is not valid XZ is refused.
#[verifier::external_body]
fn xz_decompress(data: &Vec<u8>) -> (r: Option<Vec<u8>>)
    ensures
        match r {
            Some(d) => xz_dec(data@) == Some(d@),
            None => xz_dec(data@) is None,
        },
{
    let mut dec = xz2::read::XzDecoder::new(data.as_slice());
    let mut out = Vec::new();
    match std::io::Read::read_to_end(&mut dec, &mut out) {
        Ok(_) => Some(out),
        Err(_) => None,
    }
}

/// Relies on zip::ZipWriter over an in-memory cursor: every entry is written
/// with compression method Stored and the crate's fixed default timestamp,
/// so the container bytes are a function of the entry list alone, and
/// reading the container back yields exactly the entries written, in order.
/// The writer records each name's byte length in a 16-bit field without
/// checking it, so longer names must be kept out.
#[verifier::external_body]
fn zip_write(entries: &Vec<(String, Vec<u8>)>) -> (r: Option<Vec<u8>>)
    requires
        names_fit(entries_view(entries@)),
    ensures
        match r {
            Some(blob) => zip_of(entries_view(entries@)) == Some(blob@) && unzip_of(blob@)
                == Some(entries_view(entries@)),
            None => zip_of(entries_view(entries@)) is None,
        },
{
    let mut w = zip::ZipWriter::new(std::io::Cursor::new(Vec::new()));
    let opts = zip::write::FileOptions::default()
        .compression_method(zip::CompressionMethod::Stored);
    for (name, data) in entries.iter() {
        w.start_file(name, opts).ok()?;
        std::io::Write::write_all(&mut w, data).ok()?;
    }
    Some(w.finish().ok()?.into_inner())
}

/// Relies on zip::ZipArchive over an in-memory cursor: entries come back in
/// index order with the names and bytes they were written with; nothing
/// when the container or any entry cannot be read. An entry whose
/// compression method is not Stored is refused up front: this build handles
/// no other method, and the crate's reader aborts on one instead of
/// returning an error.
#[verifier::external_body]
fn zip_read(blob: &Vec<u8>) -> (r: Option<Vec<(String, Vec<u8>)>>)
    ensures
        match r {
            Some(es) => unzip_of(blob@) == Some(entries_view(es@)),
            None => unzip_of(blob@) is None,
        },
{
    let mut a = zip::ZipArchive::new(std::io::Cursor::new(blob.clone())).ok()?;
    let mut out = Vec::new();
    for i in 0..a.len() {
        let mut f = a.by_index(i).ok()?;
        if f.compression() != zip::CompressionMethod::Stored {
            return None;
        }
        let name = f.name().to_string();
        let mut data = Vec::new();
        std::io::Read::read_to_end(&mut f, &mut data).ok()?;
        out.push((name, data));
    }
    Some(out)
}

/// Bundle the input entries into one archive blob: a ZIP container whose
/// entries are stored uncompressed at the container level, each entry's
/// bytes being the XZ stream of the input bytes at the fixed preset. The
/// blob is exactly what the container writer produces for that entry list,
/// and extracting it gives the entries back unchanged. Fails exactly when an
/// entry name overflows the container's name field or the container cannot
/// be written.
#[verifier::loop_isolation(false)]
pub fn create(entries: &Vec<(String, Vec<u8>)>) -> (r: Result<Vec<u8>, Error>)
    ensures
        match r {
            Ok(blob) => {
                &&& names_fit(entries_view(entries@))
                &&& Some(blob@) == zip_of(archived_entries(entries_view(entries@)))
                &&& unarchive_spec(blob@) == Some(entries_view(entries@))
            },
            Err(e) => e is IOError && (!names_fit(entries_view(entries@)) || zip_of(
                archived_entries(entries_view(entries@)),
            ) is None),
        },
{
    let ghost ev = entries_view(entries@);
    // Every entry name must fit the container's 16-bit name length field.
    let mut i: usize = 0;
    while i < entries.len()
        invariant
            i <= entries@.len(),
            forall|j: int| 0 <= j < i ==> (#[trigger] encode_utf8(ev[j].0)).len() <= MAX_NAME_BYTES,
        decreases entries@.len() - i,
    {
        if entries[i].0.as_str().as_bytes().len() > MAX_NAME_BYTES {
            proof {
                assert(encode_utf8(ev[i as int].0).len() > MAX_NAME_BYTES);
                assert(!names_fit(ev));
            }
            return Err(Error::IOError);
        }
        i = i + 1;
    }
    assert(names_fit(ev));
    let mut packed: Vec<(String, Vec<u8>)> = Vec::new();
    let mut i: usize = 0;
    while i < entries.len()
        invariant
            i <= entries@.len(),
            packed@.len() == i,
            forall|j: int|
                0 <= j < i ==> (#[trigger] packed@[j]).0@ == entries@[j].0@ && packed@[j].1@
                    == xz_enc(entries@[j].1@, XZ_PRESET) && xz_dec(packed@[j].1@) == Some(
                    entries@[j].1@,
                ),
        decreases entries@.len() - i,
    {
        let name = entries[i].0.clone();
        let data = xz_compress(&entries[i].1, XZ_PRESET);
        packed.push((name, data));
        i = i + 1;
    }
    proof {
        assert(entries_view(packed@) =~= archived_entries(ev));
        assert forall|j: int| 0 <= j < ev.len() implies (#[trigger] encode_utf8(
            entries_view(packed@)[j].0,
        )).len() <= MAX_NAME_BYTES by {
            assert(entries_view(packed@)[j].0 == ev[j].0);
        }
        assert(names_fit(entries_view(packed@)));
    }
    match zip_write(&packed) {
        Some(blob) => {
            proof {
                let es = entries_view(packed@);
                assert forall|j: int| 0 <= j < es.len() implies (#[trigger] xz_dec(es[j].1))
                    is Some by {
                    assert(es[j].1 == packed@[j].1@);
                }
                assert(Seq::new(es.len(), |j: int| (es[j].0, xz_dec(es[j].1)->Some_0))
                    =~= entries_view(entries@));
            }
            Ok(blob)
        },
        None => Err(Error::IOError),
    }
}

/// Restore the entries bundled in an archive blob. Fails exactly when the
/// container or one of its XZ streams cannot be decoded.
pub fn extract(blob: &Vec<u8>) -> (r: Result<Vec<(String, Vec<u8>)>, Error>)
    ensures
        match r {
            Ok(out) => unarchive_spec(blob@) == Some(entries_view(out@)),
            Err(e) => e is ArchiveCorrupt && unarchive_spec(blob@) is None,
        },
{
    let es = match zip_read(blob) {
        Some(es) => es,
        None => {
            return Err(Error::ArchiveCorrupt);
        },
    };
    let mut out: Vec<(String, Vec<u8>)> = Vec::new();
    let mut i: usize = 0;
    while i < es.len()
        invariant
            i <= es@.len(),
            out@.len() == i,
            unzip_of(blob@) == Some(entries_view(es@)),
            forall|j: int|
                #![all_triggers]
                0 <= j < i ==> xz_dec(es@[j].1@) is Some && out@[j].0@ == es@[j].0@ && out@[j].1@
                    == xz_dec(es@[j].1@)->Some_0,
        decreases es@.len() - i,
    {
        let name = es[i].0.clone();
        match xz_decompress(&es[i].1) {
            Some(d) => {
                proof {
                    assert(name@ == es@[i as int].0@);
                    assert(xz_dec(es@[i as int].1@) == Some(d@));
                }
                out.push((name, d));
            },
            None => {
                proof {
                    let ev = entries_view(es@);
                    assert(ev[i as int].1 == es@[i as int].1@);
                    assert(!(forall|j: int|
                        0 <= j < ev.len() ==> (#[trigger] xz_dec(ev[j].1)) is Some));
                }
                return Err(Error::ArchiveCorrupt);
            },
        }
        i = i + 1;
    }
    proof {
        let ev = entries_view(es@);
        assert forall|j: int| 0 <= j < ev.len() implies (#[trigger] xz_dec(ev[j].1)) is Some by {
            assert(ev[j].1 == es@[j].1@);
        }
        assert(Seq::new(ev.len(), |j: int| (ev[j].0, xz_dec(ev[j].1)->Some_0)) =~= entries_view(
            out@,
        ));
    }
    Ok(out)
}

/// The UTF-8 bytes hold no ".." and do not start with a path separator.
pub open spec fn name_is_safe(bs: Seq<u8>) -> bool {
    &&& forall|i: int|
        0 <= i && i + 1 < bs.len() ==> !((#[trigger] bs[i]) == 46 && bs[i + 1] == 46)
    &&& (bs.len() > 0 ==> bs[0] != 47 && bs[0] != 92)
}

/// Whether an entry name can be joined to an output directory without
/// escaping it: it holds no ".." and does not start with '/' or '\\'. The
/// scan works on the UTF-8 bytes; the bytes of '.', '/' and '\\' never occur
/// inside another character's encoding, so the byte scan decides the same
/// question as a scan of the characters.
#[verifier::loop_isolation(false)]
pub fn is_safe_name(name: &str) -> (r: bool)
    ensures
        r == name_is_safe(encode_utf8(name@)),
{
    let bs = name.as_bytes();
    let n = bs.len();
    if n > 0 && (bs[0] == 47 || bs[0] == 92) {
        return false;
    }
    if n >= 2 {
        let mut i: usize = 0;
        while i < n - 1
            invariant
                i <= n - 1,
                forall|j: int| 0 <= j < i ==> !((#[trigger] bs@[j]) == 46 && bs@[j + 1] == 46),
            decreases n - i,
        {
            if bs[i] == 46 && bs[i + 1] == 46 {
                return false;
            }
            i = i + 1;
        }
    }
    true
}

} // verus!
