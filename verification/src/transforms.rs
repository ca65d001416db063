//! The demonstration transformations that consume the core: a section
//! heading built as a rope, and two whole-string rewrites whose outputs are
//! freshly computed text, to be stored in an arena and related back to
//! their source characters.

use crate::rope::{id_run, Rope};
use vstd::prelude::*;
use vstd::string::StrSliceExecFns;
use vstd::string::StringSliceAdditionalSpecFns;

verus! {

/// Relies on String::push: appends the given character to the end of the
/// string.
#[verifier::external_body]
fn push_char(s: &mut String, c: char)
    ensures
        final(s)@ == old(s)@.push(c),
{
    s.push(c);
}

/// A section heading: two blank lines, `###`, the title, `###`, and two
/// more blank lines, as one rope whose bytes carry identities
/// consecutively from `base`.
pub fn header(s: &str, base: usize) -> (r: Rope)
    requires
        base + 10 + s.spec_bytes().len() <= usize::MAX,
    ensures
        r.wf(),
        r@.text == seq![10u8, 10u8, 35u8, 35u8, 35u8] + s.spec_bytes() + seq![
            35u8,
            35u8,
            35u8,
            10u8,
            10u8,
        ],
        r@.ids == id_run(base as int, (10 + s.spec_bytes().len()) as nat),
{
    let mut r = Rope::from_bytes(vec![0x0au8, 0x0au8, 0x23u8, 0x23u8, 0x23u8], base);
    let sb = s.as_bytes_vec();
    let slen = sb.len();
    r.append(Rope::from_bytes(sb, base + 5));
    r.append(
        Rope::from_bytes(vec![0x23u8, 0x23u8, 0x23u8, 0x0au8, 0x0au8], base + 5 + slen),
    );
    proof {
        assert(r@.text =~= seq![10u8, 10u8, 35u8, 35u8, 35u8] + s.spec_bytes() + seq![
            35u8,
            35u8,
            35u8,
            10u8,
            10u8,
        ]);
        assert(r@.ids =~= id_run(base as int, (10 + s.spec_bytes().len()) as nat));
    }
    r
}

/// The characters of `s` in reverse order.
pub fn reverse(s: &str) -> (r: String)
    ensures
        r@ == s@.reverse(),
{
    let n = s.unicode_len();
    let mut out = String::new();
    let mut i: usize = 0;
    while i < n
        invariant
            n == s@.len(),
            i <= n,
            out@ == Seq::new(i as nat, |k: int| s@[n - 1 - k]),
        decreases n - i,
    {
        push_char(&mut out, s.get_char(n - 1 - i));
        proof {
            assert(out@ =~= Seq::new((i + 1) as nat, |k: int| s@[n - 1 - k]));
        }
        i = i + 1;
    }
    proof {
        assert(out@ =~= s@.reverse());
    }
    out
}

/// True of the characters that `filter` strips: the vowels of either case,
/// with `y` counted among them.
pub open spec fn is_vowel(c: char) -> bool {
    ||| c == 'a'
    ||| c == 'e'
    ||| c == 'i'
    ||| c == 'o'
    ||| c == 'u'
    ||| c == 'y'
    ||| c == 'A'
    ||| c == 'E'
    ||| c == 'I'
    ||| c == 'O'
    ||| c == 'U'
    ||| c == 'Y'
}

/// `s` with every vowel removed and every other character retained in
/// order.
pub open spec fn strip_vowels(s: Seq<char>) -> Seq<char> {
    s.filter(|c: char| !is_vowel(c))
}

/// `s` without its vowels: every character of the result is a non-vowel
/// of `s`, in the original order.
pub fn filter(s: &str) -> (r: String)
    ensures
        r@ == strip_vowels(s@),
{
    broadcast use vstd::seq_lib::group_filter_ensures;

    let n = s.unicode_len();
    let mut out = String::new();
    let mut i: usize = 0;
    while i < n
        invariant
            n == s@.len(),
            i <= n,
            out@ == strip_vowels(s@.take(i as int)),
        decreases n - i,
    {
        let c = s.get_char(i);
        let keep = !(c == 'a' || c == 'e' || c == 'i' || c == 'o' || c == 'u' || c == 'y'
            || c == 'A' || c == 'E' || c == 'I' || c == 'O' || c == 'U' || c == 'Y');
        if keep {
            push_char(&mut out, c);
        }
        proof {
            let pred = |x: char| !is_vowel(x);
            assert(s@.take(i as int + 1).drop_last() =~= s@.take(i as int));
            assert(s@.take(i as int + 1).last() == c);
            reveal_with_fuel(Seq::filter, 2);
            assert(strip_vowels(s@.take(i as int + 1)) == if pred(c) {
                strip_vowels(s@.take(i as int)).push(c)
            } else {
                strip_vowels(s@.take(i as int))
            });
        }
        i = i + 1;
    }
    proof {
        assert(s@.take(n as int) =~= s@);
    }
    out
}

} // verus!
