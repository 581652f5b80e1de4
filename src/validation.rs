//! Checks on a hostname typed by a user, before a query is built from it.
use vstd::prelude::*;

use crate::name::{lemma_split_dots_len, split_dots};

verus! {

/// Longest dotted name, in characters, that a query may carry.
pub const MAX_NAME_LENGTH: usize = 255;

/// Longest label, in characters, that a query may carry.
pub const MAX_TOKEN_LENGTH: usize = 63;

/// Whether a hostname is at most 255 characters long.
pub fn check_length(value: &String) -> (r: bool)
    ensures
        r == (value@.len() <= MAX_NAME_LENGTH),
{
    value.as_str().unicode_len() <= MAX_NAME_LENGTH
}

/// The first dot-separated piece of `pieces` longer than 63 characters is at
/// index `k`.
pub open spec fn first_long_token(pieces: Seq<Seq<char>>, k: int) -> bool {
    &&& 0 <= k < pieces.len()
    &&& pieces[k].len() > MAX_TOKEN_LENGTH
    &&& forall|j: int| 0 <= j < k ==> (#[trigger] pieces[j]).len() <= MAX_TOKEN_LENGTH
}

/// Checks each dot-separated piece of a hostname against the 63-character
/// limit: the first piece that is longer, with `false`, or the whole name
/// with `true`.
pub fn check_token_length(value: &String) -> (r: (&str, bool))
    ensures
        r.1 <==> (forall|k: int| 0 <= k < split_dots(value@).len() ==> (#[trigger] split_dots(value@)[k]).len() <= MAX_TOKEN_LENGTH),
        r.1 ==> r.0@ == value@,
        !r.1 ==> exists|k: int| first_long_token(split_dots(value@), k) && r.0@ == split_dots(value@)[k],
{
    let s = value.as_str();
    let n = s.unicode_len();
    let mut i: usize = 0;
    let mut from: usize = 0;
    proof {
        assert(s@.subrange(0, 0) =~= seq![]);
    }
    while i < n
        invariant
            n == s@.len(),
            s@ == value@,
            from <= i <= n,
            split_dots(s@.subrange(0, i as int)).len() >= 1,
            split_dots(s@.subrange(0, i as int)).last() == s@.subrange(from as int, i as int),
            forall|j: int|
                0 <= j < split_dots(s@.subrange(0, i as int)).len() - 1 ==> (#[trigger] split_dots(
                    s@.subrange(0, i as int),
                )[j]).len() <= MAX_TOKEN_LENGTH,
        decreases n - i,
    {
        let ghost pieces = split_dots(s@.subrange(0, i as int));
        let c = s.get_char(i);
        proof {
            assert(s@.subrange(0, i + 1).drop_last() =~= s@.subrange(0, i as int));
            lemma_split_dots_len(s@.subrange(0, i + 1));
        }
        if c == '.' {
            if i - from > MAX_TOKEN_LENGTH {
                proof {
                    lemma_pieces_prefix(s@, i as int + 1);
                    lemma_pieces_prefix(s@, i as int);
                    let whole = split_dots(value@);
                    let k = pieces.len() - 1;
                    let next = split_dots(s@.subrange(0, i + 1));
                    assert(next == pieces.push(seq![]));
                    assert(next[k] == pieces[k]);
                    assert(whole[k] == pieces[k]);
                    assert forall|j: int| 0 <= j < k implies (#[trigger] whole[j]).len() <= MAX_TOKEN_LENGTH by {
                        assert(pieces[j] == whole[j]);
                    }
                    assert(s@.subrange(from as int, i as int) == whole[k]);
                    assert(first_long_token(whole, k));
                }
                return (s.substring_char(from, i), false);
            }
            from = i + 1;
            proof {
                assert(s@.subrange(from as int, i + 1) =~= seq![]);
            }
        } else {
            proof {
                assert(s@.subrange(from as int, i + 1) =~= s@.subrange(from as int, i as int).push(c));
            }
        }
        i = i + 1;
    }
    proof {
        assert(s@.subrange(0, n as int) =~= s@);
    }
    if n - from > MAX_TOKEN_LENGTH {
        proof {
            assert(first_long_token(split_dots(value@), split_dots(value@).len() - 1));
        }
        return (s.substring_char(from, n), false);
    }
    (s, true)
}

/// The pieces of a prefix of `s` that end before the prefix does are pieces
/// of `s` itself.
proof fn lemma_pieces_prefix(s: Seq<char>, i: int)
    requires
        0 <= i <= s.len(),
    ensures
        split_dots(s.subrange(0, i)).len() <= split_dots(s).len(),
        forall|j: int|
            0 <= j < split_dots(s.subrange(0, i)).len() - 1 ==> #[trigger] split_dots(s.subrange(0, i))[j]
                == split_dots(s)[j],
    decreases s.len() - i,
{
    if i == s.len() {
        assert(s.subrange(0, i) =~= s);
    } else {
        lemma_pieces_prefix(s, i + 1);
        assert(s.subrange(0, i + 1).drop_last() =~= s.subrange(0, i));
        lemma_split_dots_len(s.subrange(0, i));
        let p = split_dots(s.subrange(0, i));
        let q = split_dots(s.subrange(0, i + 1));
        assert(q.len() >= p.len());
        assert forall|j: int| 0 <= j < p.len() - 1 implies #[trigger] p[j] == split_dots(s)[j] by {
            assert(p[j] == q[j]);
        }
    }
}

} // verus!
