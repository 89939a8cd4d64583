use vstd::prelude::*;
use vstd::arithmetic::div_mod::lemma_fundamental_div_mod;
use vstd::set_lib::{lemma_int_range, lemma_len_subset, set_int_range};
use crate::archive::{archived_entries, create, entries_view, extract, names_fit, unarchive_spec, zip_of};
use crate::bytes::sub_vec;
use crate::cover::{
    chunk_readable, parse_spec, payload_spec, Cover, MZPECover, MZPEUncover, Uncover,
    PE_APPEND_LIMIT, PE_SIZE_LIMIT,
};
use crate::crypto::{dec_blob, decrypt_file, encrypt_file, MAX_PASS_LEN};
use crate::errors::Error;
use crate::trailer::{encode_spec, lemma_trailer_round_trip, meta_valid, meta_wf, Metadata};

verus! {

/// Largest number of covers one payload may be split across.
pub const MAX_PARTS: usize = 0x7FFF;

/// The byte sequences of a list of cover byte vectors.
pub open spec fn covers_view(cs: Seq<Vec<u8>>) -> Seq<Seq<u8>> {
    cs.map_values(|c: Vec<u8>| c@)
}

/// The byte sequence of an optional passphrase.
pub open spec fn opt_view(p: Option<Vec<u8>>) -> Option<Seq<u8>> {
    match p {
        Some(v) => Some(v@),
        None => None,
    }
}

/// Length of chunk `i` (0-based) when a `len`-byte blob is split across `k`
/// covers: every chunk gets `len / k` bytes, the last one also the
/// remainder.
pub open spec fn chunk_len_spec(len: int, k: int, i: int) -> int {
    if i == k - 1 {
        len / k + len % k
    } else {
        len / k
    }
}

/// Where chunk `i` starts inside the blob.
pub open spec fn chunk_start_spec(len: int, k: int, i: int) -> int {
    i * (len / k)
}

/// Chunk `i` of the blob: a contiguous slice, chunks in order.
pub open spec fn chunk_spec(blob: Seq<u8>, k: int, i: int) -> Seq<u8> {
    blob.subrange(
        chunk_start_spec(blob.len() as int, k, i),
        chunk_start_spec(blob.len() as int, k, i) + chunk_len_spec(blob.len() as int, k, i),
    )
}

/// The trailer record paired with chunk `i`.
pub open spec fn meta_for(len: int, k: int, i: int, enc: bool) -> Metadata {
    Metadata {
        payload_size: chunk_len_spec(len, k, i) as u32,
        encrypted: enc,
        part: (i + 1) as u16,
        total_parts: k as u16,
    }
}

/// The chunks are laid out back to back: each starts where the previous one
/// ended, and the last one ends at the blob's end.
pub proof fn lemma_chunk_bounds(len: int, k: int, i: int)
    requires
        0 <= len,
        1 <= k,
        0 <= i < k,
    ensures
        0 <= chunk_len_spec(len, k, i),
        0 <= chunk_start_spec(len, k, i),
        chunk_start_spec(len, k, i) + chunk_len_spec(len, k, i) <= len,
        i < k - 1 ==> chunk_start_spec(len, k, i) + chunk_len_spec(len, k, i) == chunk_start_spec(
            len,
            k,
            i + 1,
        ),
        i == k - 1 ==> chunk_start_spec(len, k, i) + chunk_len_spec(len, k, i) == len,
        chunk_len_spec(len, k, i) <= len,
{
    lemma_fundamental_div_mod(len, k);
    let b = len / k;
    let r = len % k;
    assert(len == k * b + r);
    assert(0 <= b && 0 <= r < k && (i + 1) * b == i * b + b && i * b >= 0 && (i + 1) * b <= k * b)
        by (nonlinear_arith)
        requires
            1 <= k,
            0 <= i < k,
            0 <= len,
            b == len / k,
            r == len % k,
            len == k * b + r,
    ;
    assert(k * b <= len);
}

/// The concatenation of the first `i` chunks.
pub open spec fn chunks_concat(blob: Seq<u8>, k: int, i: int) -> Seq<u8>
    decreases i,
{
    if i <= 0 {
        Seq::empty()
    } else {
        chunks_concat(blob, k, i - 1) + chunk_spec(blob, k, i - 1)
    }
}

/// The first `i` chunks concatenated are exactly the blob's prefix up to
/// where chunk `i` starts.
proof fn lemma_chunks_concat_prefix(blob: Seq<u8>, k: int, i: int)
    requires
        1 <= k,
        0 <= i <= k,
    ensures
        chunks_concat(blob, k, i) == blob.subrange(
            0,
            if i == k {
                blob.len() as int
            } else {
                chunk_start_spec(blob.len() as int, k, i)
            },
        ),
    decreases i,
{
    let len = blob.len() as int;
    if i == 0 {
        lemma_fundamental_div_mod(len, k);
        assert(0 * (len / k) == 0) by (nonlinear_arith);
        assert(chunks_concat(blob, k, 0) =~= blob.subrange(0, 0));
    } else {
        lemma_chunks_concat_prefix(blob, k, i - 1);
        lemma_chunk_bounds(len, k, i - 1);
        let s = chunk_start_spec(len, k, i - 1);
        let e = s + chunk_len_spec(len, k, i - 1);
        assert(blob.subrange(0, s) + blob.subrange(s, e) =~= blob.subrange(0, e));
    }
}

/// Chunk sum law: splitting a blob across `k` covers loses and reorders
/// nothing. The chunk lengths add up to the blob length, and the
/// concatenation of the chunks in part order is the blob itself.
pub proof fn lemma_chunk_sum(blob: Seq<u8>, k: int)
    requires
        1 <= k,
    ensures
        chunks_concat(blob, k, k) == blob,
        forall|i: int|
            0 <= i < k ==> (#[trigger] chunk_spec(blob, k, i)).len() == chunk_len_spec(
                blob.len() as int,
                k,
                i,
            ),
{
    lemma_chunks_concat_prefix(blob, k, k);
    assert(blob.subrange(0, blob.len() as int) =~= blob);
    assert forall|i: int| 0 <= i < k implies (#[trigger] chunk_spec(blob, k, i)).len()
        == chunk_len_spec(blob.len() as int, k, i) by {
        lemma_chunk_bounds(blob.len() as int, k, i);
    }
}

/// Every cover's bytes parse to a trailer record.
pub open spec fn all_parse(cs: Seq<Seq<u8>>) -> bool {
    forall|i: int| 0 <= i < cs.len() ==> (#[trigger] parse_spec(cs[i])) is Some
}

/// The least index at or past `i` whose cover does not parse.
pub open spec fn first_unparsed(cs: Seq<Seq<u8>>, i: int) -> int
    decreases cs.len() - i when 0 <= i <= cs.len()
{
    if i >= cs.len() {
        i
    } else if parse_spec(cs[i]) is None {
        i
    } else {
        first_unparsed(cs, i + 1)
    }
}

proof fn lemma_first_unparsed(cs: Seq<Seq<u8>>, k: int, i: int)
    requires
        0 <= k <= i < cs.len(),
        forall|j: int| k <= j < i ==> (#[trigger] parse_spec(cs[j])) is Some,
        parse_spec(cs[i]) is None,
    ensures
        first_unparsed(cs, k) == i,
    decreases i - k,
{
    if k < i {
        lemma_first_unparsed(cs, k + 1, i);
    }
}

/// The records of covers that all parse.
pub open spec fn metas_of(cs: Seq<Seq<u8>>) -> Seq<Metadata> {
    Seq::new(cs.len(), |i: int| parse_spec(cs[i])->Some_0)
}

/// All covers agree on the `encrypted` flag.
pub open spec fn enc_consistent(ms: Seq<Metadata>) -> bool {
    forall|i: int| 0 <= i < ms.len() ==> (#[trigger] ms[i]).encrypted == ms[0].encrypted
}

/// All covers agree on `total_parts`.
pub open spec fn tp_consistent(ms: Seq<Metadata>) -> bool {
    forall|i: int| 0 <= i < ms.len() ==> (#[trigger] ms[i]).total_parts == ms[0].total_parts
}

/// Some cover carries part `p`.
pub open spec fn has_part(ms: Seq<Metadata>, p: u16) -> bool {
    exists|i: int| 0 <= i < ms.len() && (#[trigger] ms[i]).part == p
}

/// The part numbers in [1, p] that no cover carries, ascending.
pub open spec fn missing_upto(ms: Seq<Metadata>, p: int) -> Seq<u16>
    decreases p,
{
    if p <= 0 {
        Seq::empty()
    } else {
        missing_upto(ms, p - 1) + (if has_part(ms, p as u16) {
            Seq::<u16>::empty()
        } else {
            seq![p as u16]
        })
    }
}

/// Two covers carry the same part number.
pub open spec fn dup_exists(ms: Seq<Metadata>) -> bool {
    exists|i: int, j: int|
        0 <= i < j < ms.len() && (#[trigger] ms[i]).part == (#[trigger] ms[j]).part
}

/// The index of the cover carrying part `p`.
pub open spec fn idx_of_part(ms: Seq<Metadata>, p: u16) -> int {
    choose|i: int| 0 <= i < ms.len() && (#[trigger] ms[i]).part == p
}

/// The index of the first cover, in part order starting at part `p`, that
/// is too short for the payload its trailer announces.
pub open spec fn first_unreadable(cs: Seq<Seq<u8>>, ms: Seq<Metadata>, p: int) -> int
    decreases ms.len() + 1 - p when p >= 0
{
    if p > ms.len() {
        0
    } else {
        let i = idx_of_part(ms, p as u16);
        if !chunk_readable(cs[i], ms[i]) {
            i
        } else {
            first_unreadable(cs, ms, p + 1)
        }
    }
}

proof fn lemma_first_unreadable(cs: Seq<Seq<u8>>, ms: Seq<Metadata>, q: int, p: int)
    requires
        cs.len() == ms.len(),
        1 <= q <= p <= ms.len(),
        forall|x: int|
            q <= x < p ==> chunk_readable(
                cs[idx_of_part(ms, x as u16)],
                #[trigger] ms[idx_of_part(ms, x as u16)],
            ),
        !chunk_readable(cs[idx_of_part(ms, p as u16)], ms[idx_of_part(ms, p as u16)]),
    ensures
        first_unreadable(cs, ms, q) == idx_of_part(ms, p as u16),
    decreases p - q,
{
    if q < p {
        lemma_first_unreadable(cs, ms, q + 1, p);
    }
}

/// The payload chunks of parts 1..=p, concatenated in part order.
pub open spec fn joined_upto(cs: Seq<Seq<u8>>, ms: Seq<Metadata>, p: int) -> Seq<u8>
    decreases p,
{
    if p <= 0 {
        Seq::empty()
    } else {
        let i = idx_of_part(ms, p as u16);
        joined_upto(cs, ms, p - 1) + payload_spec(cs[i], ms[i])
    }
}

/// Everything recovering hidden data from a set of covers can end in. The
/// stages are checked in this order, each with its own kind of failure.
pub enum UnhideOutcome {
    /// The recovered entries: names and file bytes.
    Success(Seq<(Seq<char>, Seq<u8>)>),
    TooManyCovers,
    NotACover(int),
    InconsistentEncryption,
    InconsistentTotalParts,
    TooManyParts,
    MissingParts(Seq<u16>),
    DuplicateParts,
    ChunkReadFailed(int),
    EncryptedPayloadNoPassword,
    DecryptFailed,
    ArchiveCorrupt,
}

/// What recovering from a list of cover byte sequences yields, for every
/// input: validation in the fixed stage order, then concatenation in part
/// order, then decryption when the trailers say so, then extraction.
pub open spec fn unhide_spec(cs: Seq<Seq<u8>>, pass: Option<Seq<u8>>) -> UnhideOutcome {
    if cs.len() > MAX_PARTS {
        UnhideOutcome::TooManyCovers
    } else if !all_parse(cs) {
        UnhideOutcome::NotACover(first_unparsed(cs, 0))
    } else {
        let ms = metas_of(cs);
        if !enc_consistent(ms) {
            UnhideOutcome::InconsistentEncryption
        } else if !tp_consistent(ms) {
            UnhideOutcome::InconsistentTotalParts
        } else if cs.len() > ms[0].total_parts {
            UnhideOutcome::TooManyParts
        } else if cs.len() < ms[0].total_parts {
            UnhideOutcome::MissingParts(missing_upto(ms, ms[0].total_parts as int))
        } else if dup_exists(ms) {
            UnhideOutcome::DuplicateParts
        } else if !(forall|i: int| 0 <= i < cs.len() ==> chunk_readable(cs[i], #[trigger] ms[i])) {
            UnhideOutcome::ChunkReadFailed(first_unreadable(cs, ms, 1))
        } else {
            let blob = joined_upto(cs, ms, ms[0].total_parts as int);
            if ms[0].encrypted {
                match pass {
                    None => UnhideOutcome::EncryptedPayloadNoPassword,
                    Some(pw) => match dec_blob(blob, pw) {
                        None => UnhideOutcome::DecryptFailed,
                        Some(pt) => match unarchive_spec(pt) {
                            None => UnhideOutcome::ArchiveCorrupt,
                            Some(es) => UnhideOutcome::Success(es),
                        },
                    },
                }
            } else {
                match unarchive_spec(blob) {
                    None => UnhideOutcome::ArchiveCorrupt,
                    Some(es) => UnhideOutcome::Success(es),
                }
            }
        }
    }
}

/// The exec result stands for the spec outcome.
pub open spec fn outcome_matches(
    r: Result<Vec<(String, Vec<u8>)>, Error>,
    o: UnhideOutcome,
) -> bool {
    match r {
        Ok(out) => o == UnhideOutcome::Success(entries_view(out@)),
        Err(e) => match e {
            Error::TooManyCovers => o is TooManyCovers,
            Error::NotACover(i) => o == UnhideOutcome::NotACover(i as int),
            Error::InconsistentEncryption => o is InconsistentEncryption,
            Error::InconsistentTotalParts => o is InconsistentTotalParts,
            Error::TooManyParts => o is TooManyParts,
            Error::MissingParts(ps) => o == UnhideOutcome::MissingParts(ps@),
            Error::DuplicateParts => o is DuplicateParts,
            Error::ChunkReadFailed(i) => o == UnhideOutcome::ChunkReadFailed(i as int),
            Error::EncryptedPayloadNoPassword => o is EncryptedPayloadNoPassword,
            Error::DecryptFailed => o is DecryptFailed,
            Error::ArchiveCorrupt => o is ArchiveCorrupt,
            _ => false,
        },
    }
}

/// Find a cover carrying part `p`.
fn find_part(ms: &Vec<Metadata>, p: u16) -> (r: Option<usize>)
    ensures
        match r {
            Some(i) => i < ms@.len() && ms@[i as int].part == p,
            None => !has_part(ms@, p),
        },
{
    let mut i: usize = 0;
    while i < ms.len()
        invariant
            i <= ms@.len(),
            forall|j: int| 0 <= j < i ==> (#[trigger] ms@[j]).part != p,
        decreases ms@.len() - i,
    {
        if ms[i].part == p {
            return Some(i);
        }
        i = i + 1;
    }
    None
}

/// With distinct part numbers, the cover `find_part` returns is the one the
/// spec chooses.
proof fn lemma_unique_idx(ms: Seq<Metadata>, p: u16, i: int)
    requires
        0 <= i < ms.len(),
        ms[i].part == p,
        !dup_exists(ms),
    ensures
        idx_of_part(ms, p) == i,
{
    let c = idx_of_part(ms, p);
    assert(0 <= c < ms.len() && ms[c].part == p);
    if c < i {
        assert(ms[c].part == ms[i].part);
    } else if i < c {
        assert(ms[i].part == ms[c].part);
    }
}

/// Pigeonhole: `n` covers carrying distinct part numbers out of [1, n]
/// carry every part number in [1, n].
proof fn lemma_parts_complete(ms: Seq<Metadata>, p: u16)
    requires
        forall|i: int| 0 <= i < ms.len() ==> 1 <= (#[trigger] ms[i]).part <= ms.len(),
        !dup_exists(ms),
        1 <= p <= ms.len(),
    ensures
        has_part(ms, p),
{
    broadcast use vstd::set::group_set_axioms;

    let n = ms.len() as int;
    let parts = Seq::new(ms.len(), |i: int| ms[i].part as int);
    assert(parts.no_duplicates()) by {
        assert forall|i: int, j: int| 0 <= i < parts.len() && 0 <= j < parts.len() && i != j
            implies parts[i] != parts[j] by {
            if i < j {
                assert(!(ms[i].part == ms[j].part));
            } else {
                assert(!(ms[j].part == ms[i].part));
            }
        }
    }
    if !has_part(ms, p) {
        parts.unique_seq_to_set();
        let s = parts.to_set();
        let big = set_int_range(1, n + 1).remove(p as int);
        lemma_int_range(1, n + 1);
        assert(set_int_range(1, n + 1).contains(p as int));
        assert(big.len() == n - 1);
        assert forall|x: int| s.contains(x) implies big.contains(x) by {
            let i = choose|i: int| 0 <= i < parts.len() && parts[i] == x;
            assert(ms[i].part == x);
            assert(x != p as int);
        }
        lemma_len_subset(s, big);
        assert(false);
    }
}

/// Recover the files hidden in a set of covers, handed in as the covers'
/// raw bytes in any order. The stages run in a fixed order, each with its
/// own error: every cover must parse, the set must agree on `encrypted` and
/// `total_parts`, the parts must be exactly 1..=total_parts, every
/// announced chunk must really be there; then the chunks are concatenated
/// in part order, decrypted when the trailers say the payload is encrypted
/// (which then requires the passphrase), and unbundled into the original
/// entries.
#[verifier::loop_isolation(false)]
pub fn unhide(files: &Vec<Vec<u8>>, password: &Option<Vec<u8>>) -> (r: Result<
    Vec<(String, Vec<u8>)>,
    Error,
>)
    requires
        files@.len() >= 1,
        (*password) matches Some(p) ==> p@.len() <= MAX_PASS_LEN,
    ensures
        outcome_matches(r, unhide_spec(covers_view(files@), opt_view(*password))),
{
    let ghost cs = covers_view(files@);
    if files.len() > MAX_PARTS {
        return Err(Error::TooManyCovers);
    }
    // Parse every cover's trailer.
    let mut uncovers: Vec<MZPEUncover> = Vec::new();
    let mut metas: Vec<Metadata> = Vec::new();
    let mut i: usize = 0;
    while i < files.len()
        invariant
            i <= files@.len(),
            cs == covers_view(files@),
            uncovers@.len() == i,
            metas@.len() == i,
            forall|j: int| 0 <= j < i ==> (#[trigger] parse_spec(cs[j])) is Some,
            forall|j: int|
                0 <= j < i ==> (#[trigger] uncovers@[j]).contents() == cs[j] && uncovers@[j].parsed()
                    == parse_spec(cs[j]),
            forall|j: int| 0 <= j < i ==> #[trigger] metas@[j] == parse_spec(cs[j])->Some_0,
        decreases files@.len() - i,
    {
        let mut uc = MZPEUncover::from(files[i].clone());
        proof {
            assert(uc.contents() =~= cs[i as int]);
        }
        match uc.parse() {
            Ok(()) => {
                // A successful parse always leaves a record behind, so
                // this cannot fail.
                let m = match uc.meta() {
                    Ok(m) => m,
                    Err(e) => {
                        proof {
                            assert(false);
                        }
                        return Err(e);
                    },
                };
                metas.push(m);
                uncovers.push(uc);
            },
            Err(_) => {
                proof {
                    assert(parse_spec(cs[i as int]) is None);
                    assert(!all_parse(cs));
                    lemma_first_unparsed(cs, 0, i as int);
                }
                return Err(Error::NotACover(i));
            },
        }
        i = i + 1;
    }
    proof {
        assert(all_parse(cs));
        assert(metas@ =~= metas_of(cs));
    }
    let ghost ms = metas_of(cs);
    // The set must agree on the encrypted flag.
    let m0 = metas[0];
    let mut i: usize = 1;
    while i < metas.len()
        invariant
            1 <= i <= metas@.len(),
            metas@ == ms,
            m0 == ms[0],
            forall|j: int| 0 <= j < i ==> (#[trigger] ms[j]).encrypted == m0.encrypted,
        decreases metas@.len() - i,
    {
        if metas[i].encrypted != m0.encrypted {
            proof {
                assert(ms[i as int].encrypted != ms[0].encrypted);
                assert(!enc_consistent(ms));
            }
            return Err(Error::InconsistentEncryption);
        }
        i = i + 1;
    }
    assert(enc_consistent(ms));
    // ... and on the total part count.
    let mut i: usize = 1;
    while i < metas.len()
        invariant
            1 <= i <= metas@.len(),
            metas@ == ms,
            m0 == ms[0],
            forall|j: int| 0 <= j < i ==> (#[trigger] ms[j]).total_parts == m0.total_parts,
        decreases metas@.len() - i,
    {
        if metas[i].total_parts != m0.total_parts {
            proof {
                assert(ms[i as int].total_parts != ms[0].total_parts);
                assert(!tp_consistent(ms));
            }
            return Err(Error::InconsistentTotalParts);
        }
        i = i + 1;
    }
    assert(tp_consistent(ms));
    let total = m0.total_parts;
    // There cannot be more covers than parts.
    if files.len() > total as usize {
        return Err(Error::TooManyParts);
    }
    // Fewer covers than parts: name the missing part numbers, ascending.
    if files.len() < total as usize {
        let mut missing: Vec<u16> = Vec::new();
        let mut p: usize = 1;
        while p <= total as usize
            invariant
                1 <= p <= total as usize + 1,
                metas@ == ms,
                missing@ == missing_upto(ms, p - 1),
            decreases total as usize + 1 - p,
        {
            match find_part(&metas, p as u16) {
                Some(_) => {
                    proof {
                        assert(missing_upto(ms, p as int) =~= missing_upto(ms, p - 1));
                    }
                },
                None => {
                    missing.push(p as u16);
                    proof {
                        assert(missing_upto(ms, p as int) =~= missing_upto(ms, p - 1).push(
                            p as u16,
                        ));
                    }
                },
            }
            p = p + 1;
        }
        return Err(Error::MissingParts(missing));
    }
    // Exactly as many covers as parts: part numbers must be distinct.
    let mut i: usize = 0;
    while i < metas.len()
        invariant
            i <= metas@.len(),
            metas@ == ms,
            forall|a: int, b: int|
                0 <= a < b < ms.len() && a < i ==> (#[trigger] ms[a]).part != (#[trigger] ms[b]).part,
        decreases metas@.len() - i,
    {
        let mut j: usize = i + 1;
        while j < metas.len()
            invariant
                i < j <= metas@.len(),
                i < metas@.len(),
                metas@ == ms,
                forall|b: int| i < b < j ==> (#[trigger] ms[b]).part != ms[i as int].part,
            decreases metas@.len() - j,
        {
            if metas[j].part == metas[i].part {
                proof {
                    assert(ms[i as int].part == ms[j as int].part && i < j);
                    assert(dup_exists(ms));
                }
                return Err(Error::DuplicateParts);
            }
            j = j + 1;
        }
        i = i + 1;
    }
    assert(!dup_exists(ms));
    proof {
        assert forall|x: int| 0 <= x < ms.len() implies 1 <= (#[trigger] ms[x]).part <= ms.len() by {
            assert(parse_spec(cs[x]) is Some);
            assert(cs[x].len() >= 8);
            crate::trailer::lemma_decode_valid(cs[x].subrange(cs[x].len() - 8, cs[x].len() as int));
            assert(ms[x].total_parts == total);
        }
    }
    // Concatenate the chunks in part order.
    let mut blob: Vec<u8> = Vec::new();
    let mut p: usize = 1;
    while p <= total as usize
        invariant
            1 <= p <= total as usize + 1,
            total as usize == files@.len(),
            cs == covers_view(files@),
            cs.len() == ms.len(),
            ms == metas_of(cs),
            metas@ == ms,
            uncovers@.len() == ms.len(),
            !dup_exists(ms),
            forall|x: int| 0 <= x < ms.len() ==> 1 <= (#[trigger] ms[x]).part <= ms.len(),
            forall|j: int|
                0 <= j < ms.len() ==> (#[trigger] uncovers@[j]).contents() == cs[j]
                    && uncovers@[j].parsed() == parse_spec(cs[j]),
            blob@ == joined_upto(cs, ms, p - 1),
            forall|q: int|
                1 <= q < p ==> chunk_readable(
                    cs[idx_of_part(ms, q as u16)],
                    #[trigger] ms[idx_of_part(ms, q as u16)],
                ),
        decreases total as usize + 1 - p,
    {
        let i = match find_part(&metas, p as u16) {
            Some(i) => i,
            None => {
                proof {
                    lemma_parts_complete(ms, p as u16);
                    assert(false);
                }
                return Err(Error::DuplicateParts);
            },
        };
        proof {
            lemma_unique_idx(ms, p as u16, i as int);
            assert(uncovers@[i as int].parsed() == Some(ms[i as int]));
        }
        match uncovers[i].uncover(&mut blob) {
            Ok(()) => {},
            Err(_) => {
                proof {
                    assert(!chunk_readable(cs[i as int], ms[i as int]));
                    lemma_first_unreadable(cs, ms, 1, p as int);
                    assert(first_unreadable(cs, ms, 1) == i as int);
                }
                return Err(Error::ChunkReadFailed(i));
            },
        }
        p = p + 1;
    }
    proof {
        // Every cover's announced chunk was readable.
        assert forall|x: int| 0 <= x < cs.len() implies chunk_readable(cs[x], #[trigger] ms[x]) by {
            let qi: int = ms[x].part as int;
            assert(1 <= qi <= ms.len());
            lemma_unique_idx(ms, ms[x].part, x);
            assert(chunk_readable(
                cs[idx_of_part(ms, qi as u16)],
                ms[idx_of_part(ms, qi as u16)],
            ));
        }
    }
    // Decrypt when the trailers say so, then unbundle.
    if m0.encrypted {
        match password {
            Some(pass) => {
                let pt = match decrypt_file(&blob, pass) {
                    Ok(pt) => pt,
                    Err(e) => {
                        return Err(e);
                    },
                };
                match extract(&pt) {
                    Ok(es) => Ok(es),
                    Err(e) => Err(e),
                }
            },
            None => Err(Error::EncryptedPayloadNoPassword),
        }
    } else {
        match extract(&blob) {
            Ok(es) => Ok(es),
            Err(e) => Err(e),
        }
    }
}

/// Length of the encrypted image of an `l`-byte blob.
pub open spec fn enc_len(l: int) -> int {
    l + (16 - l % 16) + 32
}

/// Some cover would pass the PE size ceiling once its chunk of a
/// `blob_len`-byte blob and the 8 trailer bytes are appended.
pub open spec fn cover_overflow(covers: Seq<Seq<u8>>, blob_len: int) -> bool {
    exists|i: int|
        0 <= i < covers.len() && (#[trigger] covers[i]).len() + chunk_len_spec(
            blob_len,
            covers.len() as int,
            i,
        ) + 8 > PE_SIZE_LIMIT
}

/// The failure hiding ends in, decided stage by stage in the order the
/// pipeline runs: the cover count, the container write, the encryption
/// limits, the PE ceiling. Nothing when hiding succeeds.
pub open spec fn hide_failure(
    inputs: Seq<(Seq<char>, Seq<u8>)>,
    covers: Seq<Seq<u8>>,
    pass: Option<Seq<u8>>,
) -> Option<Error> {
    if covers.len() == 0 || covers.len() > MAX_PARTS {
        Some(Error::TooManyCovers)
    } else if !names_fit(inputs) || zip_of(archived_entries(inputs)) is None {
        Some(Error::IOError)
    } else {
        let b0 = zip_of(archived_entries(inputs))->Some_0;
        match pass {
            Some(pw) => if pw.len() > MAX_PASS_LEN || b0.len() + 48 > usize::MAX {
                Some(Error::EncryptFailed)
            } else if cover_overflow(covers, enc_len(b0.len() as int)) {
                Some(Error::CoverTooLarge)
            } else {
                None
            },
            None => if cover_overflow(covers, b0.len() as int) {
                Some(Error::CoverTooLarge)
            } else {
                None
            },
        }
    }
}

/// The on-disk contract of hiding: every grown cover is its pre-existing
/// bytes, then its chunk of the blob, then the 8-byte trailer paired with
/// that chunk.
pub open spec fn covers_laid_out(
    outs: Seq<Seq<u8>>,
    origs: Seq<Seq<u8>>,
    blob: Seq<u8>,
    enc: bool,
) -> bool {
    forall|i: int|
        0 <= i < outs.len() ==> outs[i] == origs[i] + #[trigger] chunk_spec(
            blob,
            origs.len() as int,
            i,
        ) + encode_spec(meta_for(blob.len() as int, origs.len() as int, i, enc))
            && chunk_len_spec(blob.len() as int, origs.len() as int, i) <= PE_APPEND_LIMIT
}

/// Every grown cover parses back to exactly the record the splitter paired
/// with its chunk, and carries that chunk readably before the trailer.
proof fn lemma_hide_parses(origs: Seq<Seq<u8>>, outs: Seq<Seq<u8>>, blob: Seq<u8>, k: int, enc: bool)
    requires
        1 <= k <= MAX_PARTS,
        origs.len() == k,
        outs.len() == k,
        forall|i: int| 0 <= i < k ==> #[trigger] chunk_len_spec(blob.len() as int, k, i)
            <= PE_APPEND_LIMIT,
        forall|i: int|
            0 <= i < k ==> #[trigger] outs[i] == origs[i] + chunk_spec(blob, k, i) + encode_spec(
                meta_for(blob.len() as int, k, i, enc),
            ),
    ensures
        all_parse(outs),
        forall|i: int|
            0 <= i < k ==> #[trigger] metas_of(outs)[i] == meta_for(blob.len() as int, k, i, enc),
        forall|i: int|
            0 <= i < k ==> #[trigger] payload_spec(outs[i], metas_of(outs)[i]) == chunk_spec(
                blob,
                k,
                i,
            ),
        forall|i: int| 0 <= i < k ==> chunk_readable(outs[i], #[trigger] metas_of(outs)[i]),
{
    let len = blob.len() as int;
    assert forall|i: int| 0 <= i < k implies #[trigger] parse_spec(outs[i]) == Some(
        meta_for(len, k, i, enc),
    ) by {
        let m = meta_for(len, k, i, enc);
        lemma_chunk_bounds(len, k, i);
        let cl = chunk_len_spec(len, k, i);
        assert(m.part == i + 1 && m.total_parts == k && m.payload_size == cl);
        assert(meta_valid(m));
        lemma_trailer_round_trip(m);
        let c = outs[i];
        assert(chunk_spec(blob, k, i).len() == cl);
        assert(encode_spec(m).len() == 8);
        assert(c.len() == origs[i].len() + cl + 8);
        assert(c.subrange(c.len() - 8, c.len() as int) =~= encode_spec(m));
        assert(parse_spec(c) == Some(m));
    }
    assert(all_parse(outs));
    assert forall|i: int| 0 <= i < k implies #[trigger] metas_of(outs)[i] == meta_for(
        len,
        k,
        i,
        enc,
    ) by {
        assert(parse_spec(outs[i]) == Some(meta_for(len, k, i, enc)));
    }
    assert forall|i: int| 0 <= i < k implies #[trigger] payload_spec(outs[i], metas_of(outs)[i])
        == chunk_spec(blob, k, i) && chunk_readable(outs[i], metas_of(outs)[i]) by {
        let m = meta_for(len, k, i, enc);
        lemma_chunk_bounds(len, k, i);
        let cl = chunk_len_spec(len, k, i);
        let c = outs[i];
        assert(m.payload_size == cl);
        assert(c.len() == origs[i].len() + cl + 8);
        assert(c.subrange(c.len() - 8 - cl, c.len() - 8) =~= chunk_spec(blob, k, i));
    }
    assert forall|i: int| 0 <= i < k implies chunk_readable(outs[i], #[trigger] metas_of(outs)[i]) by {
        assert(payload_spec(outs[i], metas_of(outs)[i]) == chunk_spec(blob, k, i));
    }
}

/// When part numbers are exactly 1..=k in cover order, the chunks joined in
/// part order are the chunks concatenated in cover order.
proof fn lemma_hide_joined(outs: Seq<Seq<u8>>, ms: Seq<Metadata>, blob: Seq<u8>, k: int, p: int)
    requires
        1 <= k <= MAX_PARTS,
        outs.len() == k,
        ms.len() == k,
        forall|i: int| 0 <= i < k ==> #[trigger] ms[i].part == i + 1,
        forall|i: int|
            0 <= i < k ==> #[trigger] payload_spec(outs[i], ms[i]) == chunk_spec(blob, k, i),
        0 <= p <= k,
    ensures
        joined_upto(outs, ms, p) == chunks_concat(blob, k, p),
    decreases p,
{
    if p > 0 {
        lemma_hide_joined(outs, ms, blob, k, p - 1);
        assert(ms[p - 1].part == p as u16);
        assert(exists|i: int| 0 <= i < ms.len() && (#[trigger] ms[i]).part == p as u16);
        let c = idx_of_part(ms, p as u16);
        assert(0 <= c < ms.len() && ms[c].part == p as u16);
        assert(c == p - 1);
    }
}

/// Hide the input files in the covers: bundle the inputs into one blob,
/// encrypt it when a passphrase is given, split it across the covers in the
/// order they were handed in, and append each chunk with its trailer to its
/// cover. On success the grown covers are returned in order; each keeps its
/// pre-existing bytes as an unchanged prefix, and recovering from exactly
/// these covers yields the input files again (with the same passphrase when
/// one was used). Fails exactly as `hide_failure` says: when the cover count
/// is outside [1, 32767], the container cannot be written, a size limit
/// stops the encryption, or a cover would pass the PE ceiling.
#[verifier::rlimit(60)]
#[verifier::loop_isolation(false)]
pub fn hide_files(
    input_files: &Vec<(String, Vec<u8>)>,
    cover_files: &Vec<Vec<u8>>,
    password: &Option<Vec<u8>>,
) -> (r: Result<Vec<Vec<u8>>, Error>)
    ensures
        match r {
            Ok(out) => {
                &&& hide_failure(
                    entries_view(input_files@),
                    covers_view(cover_files@),
                    opt_view(*password),
                ) is None
                &&& out@.len() == cover_files@.len()
                &&& forall|i: int|
                    0 <= i < out@.len() ==> (#[trigger] out@[i]@).subrange(
                        0,
                        cover_files@[i]@.len() as int,
                    ) == cover_files@[i]@
                &&& exists|blob: Seq<u8>|
                    #[trigger] covers_laid_out(
                        covers_view(out@),
                        covers_view(cover_files@),
                        blob,
                        (*password) is Some,
                    )
                &&& (*password) is None ==> covers_laid_out(
                    covers_view(out@),
                    covers_view(cover_files@),
                    zip_of(archived_entries(entries_view(input_files@)))->Some_0,
                    false,
                )
                &&& unhide_spec(covers_view(out@), opt_view(*password)) == UnhideOutcome::Success(
                    entries_view(input_files@),
                )
            },
            Err(e) => Some(e) == hide_failure(
                entries_view(input_files@),
                covers_view(cover_files@),
                opt_view(*password),
            ),
        },
{
    let k = cover_files.len();
    if k == 0 || k > MAX_PARTS {
        return Err(Error::TooManyCovers);
    }
    // Bundle the inputs into one blob.
    let blob0 = match create(input_files) {
        Ok(b) => b,
        Err(_) => {
            return Err(Error::IOError);
        },
    };
    let ghost b0 = blob0@;
    // Encrypt it when a passphrase was given.
    let (blob, encrypted): (Vec<u8>, bool) = match password {
        Some(pass) => match encrypt_file(&blob0, pass) {
            Ok(b) => (b, true),
            Err(_) => {
                return Err(Error::EncryptFailed);
            },
        },
        None => (blob0, false),
    };
    proof {
        assert(Some(b0) == zip_of(archived_entries(entries_view(input_files@))));
        if encrypted {
            assert(dec_blob(blob@, (*password)->Some_0@) == Some(b0));
            assert(blob@.len() as int == enc_len(b0.len() as int));
        } else {
            assert(blob@ == b0);
        }
    }
    let ghost len = blob@.len() as int;
    let ghost ki = k as int;
    // Split the blob across the covers, in the order they were handed in.
    let base = blob.len() / k;
    let rem = blob.len() % k;
    proof {
        lemma_fundamental_div_mod(len, ki);
        assert(ki * (len / ki) >= len / ki && len / ki >= 0 && 0 <= len % ki) by (nonlinear_arith)
            requires
                ki >= 1,
                len >= 0,
        ;
        assert(base + rem <= blob@.len());
    }
    let mut out: Vec<Vec<u8>> = Vec::new();
    let mut offset: usize = 0;
    let mut i: usize = 0;
    while i < k
        invariant
            i <= k,
            out@.len() == i,
            offset as int == if i < k {
                chunk_start_spec(len, ki, i as int)
            } else {
                len
            },
            forall|j: int|
                0 <= j < i ==> #[trigger] out@[j]@ == cover_files@[j]@ + chunk_spec(blob@, ki, j)
                    + encode_spec(meta_for(len, ki, j, encrypted)),
            forall|j: int| 0 <= j < i ==> #[trigger] chunk_len_spec(len, ki, j) <= PE_APPEND_LIMIT,
            forall|j: int|
                0 <= j < i ==> (#[trigger] covers_view(cover_files@)[j]).len() + chunk_len_spec(
                    len,
                    ki,
                    j,
                ) + 8 <= PE_SIZE_LIMIT,
        decreases k - i,
    {
        let csize = if i == k - 1 {
            base + rem
        } else {
            base
        };
        proof {
            lemma_chunk_bounds(len, ki, i as int);
            assert(csize as int == chunk_len_spec(len, ki, i as int));
        }
        if csize > PE_APPEND_LIMIT {
            proof {
                assert(covers_view(cover_files@)[i as int].len() + chunk_len_spec(len, ki, i as int)
                    + 8 > PE_SIZE_LIMIT);
                assert(cover_overflow(covers_view(cover_files@), len));
            }
            return Err(Error::CoverTooLarge);
        }
        let meta = Metadata {
            payload_size: csize as u32,
            encrypted,
            part: (i as u16) + 1,
            total_parts: k as u16,
        };
        proof {
            assert(meta == meta_for(len, ki, i as int, encrypted));
            assert(meta_wf(meta));
        }
        let chunk = sub_vec(&blob, offset, offset + csize);
        let mut cov = MZPECover::from(cover_files[i].clone());
        proof {
            assert(cov.contents() =~= cover_files@[i as int]@);
            assert(chunk@ == chunk_spec(blob@, ki, i as int));
        }
        match cov.cover(&chunk, &meta) {
            Ok(()) => {},
            Err(_) => {
                proof {
                    assert(covers_view(cover_files@)[i as int].len() + chunk_len_spec(
                        len,
                        ki,
                        i as int,
                    ) + 8 > PE_SIZE_LIMIT);
                    assert(cover_overflow(covers_view(cover_files@), len));
                }
                return Err(Error::CoverTooLarge);
            },
        }
        out.push(cov.into_inner());
        offset = offset + csize;
        i = i + 1;
    }
    proof {
        let csv = covers_view(out@);
        let ms = metas_of(csv);
        assert(csv.len() == ki);
        assert forall|j: int| 0 <= j < ki implies #[trigger] csv[j] == out@[j]@ by {}
        lemma_hide_parses(covers_view(cover_files@), csv, blob@, ki, encrypted);
        assert forall|j: int| 0 <= j < ki implies #[trigger] ms[j].part == j + 1 by {
            assert(ms[j] == meta_for(len, ki, j, encrypted));
        }
        assert(ms[0] == meta_for(len, ki, 0, encrypted));
        assert(enc_consistent(ms));
        assert(tp_consistent(ms));
        assert forall|a: int, b: int| 0 <= a < b < ms.len() implies (#[trigger] ms[a]).part != (
        #[trigger] ms[b]).part by {
            assert(ms[a].part == a + 1 && ms[b].part == b + 1);
        }
        assert(!dup_exists(ms));
        assert forall|j: int| 0 <= j < csv.len() implies chunk_readable(csv[j], #[trigger] ms[j]) by {
            assert(chunk_readable(csv[j], metas_of(csv)[j]));
        }
        lemma_hide_joined(csv, ms, blob@, ki, ki);
        lemma_chunk_sum(blob@, ki);
        assert(joined_upto(csv, ms, ms[0].total_parts as int) == blob@);
        assert(!(csv.len() > MAX_PARTS));
        assert(ms[0].total_parts == k as u16 && csv.len() == k);
        assert(ms[0].encrypted == encrypted);
        if encrypted {
            assert(opt_view(*password) == Some((*password)->Some_0@));
            assert(dec_blob(blob@, (*password)->Some_0@) == Some(b0));
            assert(unarchive_spec(b0) == Some(entries_view(input_files@)));
        } else {
            assert(opt_view(*password) is None);
            assert(blob@ == b0);
        }
        assert(unhide_spec(csv, opt_view(*password)) == UnhideOutcome::Success(
            entries_view(input_files@),
        ));
        assert(encrypted == (*password) is Some);
        if (*password) is None {
            assert(blob@ == zip_of(archived_entries(entries_view(input_files@)))->Some_0);
        }
        assert(!cover_overflow(covers_view(cover_files@), len));
        assert(hide_failure(
            entries_view(input_files@),
            covers_view(cover_files@),
            opt_view(*password),
        ) is None);
        assert(covers_laid_out(csv, covers_view(cover_files@), blob@, (*password) is Some));
        assert forall|j: int| 0 <= j < out@.len() implies (#[trigger] out@[j]@).subrange(
            0,
            cover_files@[j]@.len() as int,
        ) == cover_files@[j]@ by {
            assert(out@[j]@ == cover_files@[j]@ + chunk_spec(blob@, ki, j) + encode_spec(
                meta_for(len, ki, j, encrypted),
            ));
            assert(out@[j]@.subrange(0, cover_files@[j]@.len() as int) =~= cover_files@[j]@);
        }
    }
    Ok(out)
}

/// The chunks joined in part order are the same for two orderings of the
/// same covers, as long as part numbers are distinct and in range.
proof fn lemma_joined_perm(
    cs1: Seq<Seq<u8>>,
    ms1: Seq<Metadata>,
    cs2: Seq<Seq<u8>>,
    ms2: Seq<Metadata>,
    perm: Seq<int>,
    p: int,
)
    requires
        cs1.len() == ms1.len(),
        cs2.len() == ms2.len(),
        cs2.len() == cs1.len(),
        perm.len() == cs1.len(),
        cs1.len() <= MAX_PARTS,
        forall|i: int| 0 <= i < perm.len() ==> 0 <= #[trigger] perm[i] < cs1.len(),
        forall|i: int| 0 <= i < cs2.len() ==> #[trigger] cs2[i] == cs1[perm[i]],
        forall|i: int| 0 <= i < ms2.len() ==> #[trigger] ms2[i] == ms1[perm[i]],
        !dup_exists(ms1),
        !dup_exists(ms2),
        forall|i: int| 0 <= i < ms1.len() ==> 1 <= (#[trigger] ms1[i]).part <= ms1.len(),
        forall|i: int| 0 <= i < ms2.len() ==> 1 <= (#[trigger] ms2[i]).part <= ms2.len(),
        0 <= p <= cs1.len(),
    ensures
        joined_upto(cs2, ms2, p) == joined_upto(cs1, ms1, p),
    decreases p,
{
    if p > 0 {
        lemma_joined_perm(cs1, ms1, cs2, ms2, perm, p - 1);
        lemma_parts_complete(ms1, p as u16);
        lemma_parts_complete(ms2, p as u16);
        let c1 = idx_of_part(ms1, p as u16);
        let c2 = idx_of_part(ms2, p as u16);
        assert(0 <= c1 < ms1.len() && ms1[c1].part == p as u16);
        assert(0 <= c2 < ms2.len() && ms2[c2].part == p as u16);
        // The cover that carries part p is the same one in both orders.
        assert(ms1[perm[c2]].part == p as u16);
        lemma_unique_idx(ms1, p as u16, perm[c2]);
        assert(c1 == perm[c2]);
        assert(payload_spec(cs2[c2], ms2[c2]) == payload_spec(cs1[c1], ms1[c1]));
    }
}

/// Recovering a payload does not depend on the order the covers are handed
/// in: when recovery succeeds on one ordering of a cover set, it succeeds on
/// every reordering of that set, with the same entries.
pub proof fn lemma_unhide_order_independent(
    cs1: Seq<Seq<u8>>,
    cs2: Seq<Seq<u8>>,
    perm: Seq<int>,
    pass: Option<Seq<u8>>,
)
    requires
        perm.len() == cs1.len(),
        cs2.len() == cs1.len(),
        forall|i: int| 0 <= i < perm.len() ==> 0 <= #[trigger] perm[i] < cs1.len(),
        forall|i: int, j: int| 0 <= i < j < perm.len() ==> perm[i] != perm[j],
        forall|i: int| 0 <= i < cs2.len() ==> #[trigger] cs2[i] == cs1[perm[i]],
        unhide_spec(cs1, pass) is Success,
    ensures
        unhide_spec(cs2, pass) == unhide_spec(cs1, pass),
{
    if cs1.len() == 0 {
        assert(cs2 =~= cs1);
    } else {
        let n = cs1.len() as int;
        let ms1 = metas_of(cs1);
        let ms2 = metas_of(cs2);
        // Success means every validation stage passed on cs1.
        assert(!(cs1.len() > MAX_PARTS));
        assert(all_parse(cs1));
        assert(enc_consistent(ms1));
        assert(tp_consistent(ms1));
        assert(cs1.len() == ms1[0].total_parts);
        assert(!dup_exists(ms1));
        assert(forall|i: int| 0 <= i < cs1.len() ==> chunk_readable(cs1[i], #[trigger] ms1[i]));
        assert forall|x: int| 0 <= x < ms1.len() implies 1 <= (#[trigger] ms1[x]).part
            <= ms1.len() by {
            assert(parse_spec(cs1[x]) is Some);
            assert(cs1[x].len() >= 8);
            crate::trailer::lemma_decode_valid(
                cs1[x].subrange(cs1[x].len() - 8, cs1[x].len() as int),
            );
            assert(ms1[x].total_parts == ms1[0].total_parts);
        }
        // The same stages pass on the reordered covers, with the same records.
        assert forall|i: int| 0 <= i < cs2.len() implies (#[trigger] parse_spec(cs2[i])) is Some by {
            assert(cs2[i] == cs1[perm[i]]);
        }
        assert(all_parse(cs2));
        assert forall|i: int| 0 <= i < ms2.len() implies #[trigger] ms2[i] == ms1[perm[i]] by {
            assert(cs2[i] == cs1[perm[i]]);
        }
        assert(ms2[0] == ms1[perm[0]]);
        assert(ms2[0].encrypted == ms1[0].encrypted && ms2[0].total_parts == ms1[0].total_parts);
        assert forall|i: int| 0 <= i < ms2.len() implies (#[trigger] ms2[i]).encrypted
            == ms2[0].encrypted && ms2[i].total_parts == ms2[0].total_parts by {
            assert(ms2[i] == ms1[perm[i]]);
            assert(ms1[perm[i]].encrypted == ms1[0].encrypted);
            assert(ms1[perm[i]].total_parts == ms1[0].total_parts);
        }
        assert(enc_consistent(ms2) && tp_consistent(ms2));
        assert(cs2.len() == ms2[0].total_parts);
        assert forall|i: int, j: int| 0 <= i < j < ms2.len() implies (#[trigger] ms2[i]).part != (
        #[trigger] ms2[j]).part by {
            assert(ms2[i] == ms1[perm[i]] && ms2[j] == ms1[perm[j]]);
            assert(perm[i] != perm[j]);
            if perm[i] < perm[j] {
                assert(!(ms1[perm[i]].part == ms1[perm[j]].part));
            } else {
                assert(!(ms1[perm[j]].part == ms1[perm[i]].part));
            }
        }
        assert(!dup_exists(ms2));
        assert forall|i: int| 0 <= i < ms2.len() implies 1 <= (#[trigger] ms2[i]).part
            <= ms2.len() by {
            assert(ms2[i] == ms1[perm[i]]);
            assert(1 <= ms1[perm[i]].part <= ms1.len());
        }
        assert forall|i: int| 0 <= i < cs2.len() implies chunk_readable(
            cs2[i],
            #[trigger] ms2[i],
        ) by {
            assert(cs2[i] == cs1[perm[i]] && ms2[i] == ms1[perm[i]]);
            assert(chunk_readable(cs1[perm[i]], ms1[perm[i]]));
        }
        // The joined blob is the same, so the tail stages agree.
        lemma_joined_perm(cs1, ms1, cs2, ms2, perm, n);
        assert(joined_upto(cs2, ms2, ms2[0].total_parts as int) == joined_upto(
            cs1,
            ms1,
            ms1[0].total_parts as int,
        ));
    }
}

} // verus!
