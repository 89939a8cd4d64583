use vstd::prelude::*;
use vstd::string::StringExecFns;
use crate::errors::Error;

verus! {

/// The decimal digits of `n`, as ASCII bytes, most significant first.
pub open spec fn dec_digits(n: nat) -> Seq<u8>
    decreases n,
{
    if n < 10 {
        seq![(48 + n) as u8]
    } else {
        dec_digits(n / 10).push((48 + n % 10) as u8)
    }
}

/// The characters that a sequence of ASCII bytes decodes to.
pub open spec fn ascii_view(bs: Seq<u8>) -> Seq<char> {
    bs.map_values(|b: u8| b as char)
}

proof fn lemma_dec_digits_ascii(n: nat)
    ensures
        forall|i: int| 0 <= i < dec_digits(n).len() ==> 48 <= #[trigger] dec_digits(n)[i] <= 57,
    decreases n,
{
    if n >= 10 {
        lemma_dec_digits_ascii(n / 10);
        let d = dec_digits(n);
        let p = dec_digits(n / 10);
        assert forall|i: int| 0 <= i < d.len() implies 48 <= #[trigger] d[i] <= 57 by {
            if i < p.len() {
                assert(d[i] == p[i]);
            } else {
                assert(d[i] == (48 + n % 10) as u8);
            }
        }
    } else {
        assert(dec_digits(n)[0] == (48 + n) as u8);
    }
}

/// Append the decimal digits of `n`.
fn push_dec(n: u64, out: &mut Vec<u8>)
    ensures
        final(out)@ == old(out)@ + dec_digits(n as nat),
    decreases n,
{
    if n < 10 {
        out.push(48 + (n as u8));
        proof {
            assert(out@ =~= old(out)@ + dec_digits(n as nat));
        }
    } else {
        push_dec(n / 10, out);
        out.push(48 + ((n % 10) as u8));
        proof {
            assert(out@ =~= old(out)@ + dec_digits(n as nat));
        }
    }
}

/// Relies on std::time::SystemTime::now and duration_since: the clock's
/// milliseconds since the Unix epoch. Nothing is promised of the value.
#[verifier::external_body]
fn now_millis() -> (r: Result<u64, ()>) {
    match std::time::SystemTime::now().duration_since(std::time::UNIX_EPOCH) {
        Ok(d) => Ok(d.as_millis() as u64),
        Err(_) => Err(()),
    }
}

/// Relies on String::from_utf8: bytes below 128 decode to exactly one
/// character per byte.
#[verifier::external_body]
fn ascii_to_string(bytes: &Vec<u8>) -> (r: String)
    requires
        forall|i: int| 0 <= i < bytes@.len() ==> bytes@[i] < 128,
    ensures
        r@ == ascii_view(bytes@),
{
    String::from_utf8(bytes.clone()).unwrap()
}

/// A name for a temporary file: a fixed recognizable prefix followed by the
/// milliseconds since the Unix epoch in decimal. Fails only when the clock
/// stands before the epoch.
pub fn get_temp_filename() -> (r: Result<String, Error>)
    ensures
        match r {
            Ok(s) => exists|ms: u64| s@ == "_shinobu_"@ + ascii_view(dec_digits(ms as nat)),
            Err(e) => e is IOError,
        },
{
    let ms = match now_millis() {
        Ok(m) => m,
        Err(_) => {
            return Err(Error::IOError);
        },
    };
    let mut ds: Vec<u8> = Vec::new();
    push_dec(ms, &mut ds);
    proof {
        lemma_dec_digits_ascii(ms as nat);
    }
    let suffix = ascii_to_string(&ds);
    let mut s = String::from_str("_shinobu_");
    s.append(suffix.as_str());
    Ok(s)
}

/// How many distinct values the slice holds.
pub fn count_unique(values: &Vec<u64>) -> (r: usize)
    ensures
        r == values@.to_set().len(),
{
    broadcast use vstd::set::group_set_axioms;
    broadcast use vstd::seq_lib::seq_to_set_is_finite;

    let mut count: usize = 0;
    let mut i: usize = 0;
    proof {
        assert(values@.take(0).to_set() =~= Set::empty());
    }
    while i < values.len()
        invariant
            i <= values@.len(),
            count == values@.take(i as int).to_set().len(),
            count <= i,
        decreases values@.len() - i,
    {
        let mut seen = false;
        let mut j: usize = 0;
        while j < i
            invariant
                j <= i,
                i < values@.len(),
                seen == exists|x: int| 0 <= x < j && values@[x] == values@[i as int],
            decreases i - j,
        {
            if values[j] == values[i] {
                seen = true;
            }
            j = j + 1;
        }
        proof {
            let prefix = values@.take(i as int);
            let next = values@.take(i as int + 1);
            assert(seen == prefix.to_set().contains(values@[i as int])) by {
                if seen {
                    let x = choose|x: int| 0 <= x < i && values@[x] == values@[i as int];
                    assert(prefix[x] == values@[i as int]);
                } else {
                    if prefix.to_set().contains(values@[i as int]) {
                        let x = choose|x: int|
                            0 <= x < prefix.len() && prefix[x] == values@[i as int];
                        assert(values@[x] == values@[i as int]);
                    }
                }
            }
            assert(next =~= prefix.push(values@[i as int]));
            prefix.lemma_push_to_set_commute(values@[i as int]);
            assert(next.to_set() =~= prefix.to_set().insert(values@[i as int]));
        }
        if !seen {
            count = count + 1;
        }
        i = i + 1;
    }
    proof {
        assert(values@.take(values@.len() as int) =~= values@);
    }
    count
}

} // verus!
