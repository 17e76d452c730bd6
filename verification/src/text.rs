//! Executable text helpers: prefix test, joining, trimming, upper-casing.
//!
//! Each helper is verified against the corresponding spec function of
//! `crate::state`, so the encoder's transitions can be proved equal to the
//! model's transitions.

use vstd::prelude::*;

use crate::state::{join, trim_trailing, upper, upper_char};

verus! {

/// Whether `p` is a character-wise prefix of `s`.
pub fn str_is_prefix(p: &str, s: &str) -> (r: bool)
    ensures
        r == p@.is_prefix_of(s@),
{
    let pl = p.unicode_len();
    let sl = s.unicode_len();
    if pl > sl {
        return false;
    }
    let mut i: usize = 0;
    while i < pl
        invariant
            i <= pl,
            pl == p@.len(),
            sl == s@.len(),
            pl <= sl,
            forall|j: int| 0 <= j < i ==> p@[j] == s@[j],
        decreases pl - i,
    {
        if p.get_char(i) != s.get_char(i) {
            return false;
        }
        i = i + 1;
    }
    proof {
        assert(p@ =~= s@.subrange(0, pl as int));
    }
    true
}

/// Fields joined by a one-character delimiter.
pub fn join_fields(fields: &Vec<String>, sep: &str) -> (r: String)
    requires
        sep@.len() == 1,
    ensures
        r@ == join(fields.deep_view(), sep@[0]),
{
    let mut out = String::new();
    let n = fields.len();
    let mut i: usize = 0;
    while i < n
        invariant
            i <= n,
            n == fields@.len(),
            sep@.len() == 1,
            out@ == join(fields.deep_view().take(i as int), sep@[0]),
        decreases n - i,
    {
        if i > 0 {
            out.append(sep);
        }
        out.append(fields[i].as_str());
        proof {
            let dv = fields.deep_view();
            assert(dv[i as int] == fields@[i as int]@);
            assert(dv.take(i + 1).drop_last() =~= dv.take(i as int));
            assert(dv.take(i + 1).last() == dv[i as int]);
            if i == 0 {
                assert(out@ =~= join(dv.take(i + 1), sep@[0]));
            } else {
                assert(sep@ =~= seq![sep@[0]]);
                assert(out@ =~= join(dv.take(i + 1), sep@[0]));
            }
        }
        i = i + 1;
    }
    proof {
        assert(fields.deep_view().take(n as int) =~= fields.deep_view());
    }
    out
}

/// `s` with every trailing occurrence of `c` removed.
pub fn trim_trailing_str(s: &str, c: char) -> (r: String)
    ensures
        r@ == trim_trailing(s@, c),
{
    let len = s.unicode_len();
    proof {
        assert(s@.take(len as int) =~= s@);
    }
    let mut end = len;
    while end > 0 && s.get_char(end - 1) == c
        invariant
            end <= len,
            len == s@.len(),
            trim_trailing(s@, c) == trim_trailing(s@.take(end as int), c),
        decreases end,
    {
        proof {
            assert(s@.take(end as int).last() == c);
            assert(s@.take(end as int).drop_last() =~= s@.take(end - 1));
        }
        end = end - 1;
    }
    proof {
        if end > 0 {
            assert(s@.take(end as int).last() == s@[end - 1]);
        }
        assert(trim_trailing(s@.take(end as int), c) == s@.take(end as int));
    }
    let sub = s.substring_char(0, end);
    String::from_str(sub)
}

/// The name upper-cased, ASCII letter by ASCII letter.
pub fn upper_ascii(name: &str) -> (r: String)
    ensures
        r@ == upper(name@),
{
    let letters = "ABCDEFGHIJKLMNOPQRSTUVWXYZ";
    proof {
        reveal_strlit("ABCDEFGHIJKLMNOPQRSTUVWXYZ");
        assert(forall|j: int| 0 <= j < 26 ==> #[trigger] letters@[j] as u32 == 65 + j);
    }
    let mut out = String::new();
    let n = name.unicode_len();
    let mut i: usize = 0;
    while i < n
        invariant
            i <= n,
            n == name@.len(),
            letters@.len() == 26,
            forall|j: int| 0 <= j < 26 ==> #[trigger] letters@[j] as u32 == 65 + j,
            letters.is_ascii(),
            out@ == upper(name@.take(i as int)),
        decreases n - i,
    {
        let c = name.get_char(i);
        let cu = c as u32;
        if 97 <= cu && cu <= 122 {
            let k = (cu - 97) as usize;
            let letter = letters.substring_ascii(k, k + 1);
            proof {
                assert(letter@ =~= seq![letters@[k as int]]);
                assert(letters@[k as int] as u32 == upper_char(c) as u32);
                assert(letters@[k as int] == upper_char(c));
            }
            out.append(letter);
        } else {
            let same = name.substring_char(i, i + 1);
            proof {
                assert(same@ =~= seq![name@[i as int]]);
                assert(upper_char(name@[i as int]) == name@[i as int]);
            }
            out.append(same);
        }
        proof {
            assert(out@ =~= upper(name@.take(i + 1)));
        }
        i = i + 1;
    }
    proof {
        assert(name@.take(n as int) =~= name@);
        assert(upper(name@.take(n as int)) =~= upper(name@));
    }
    out
}

} // verus!
