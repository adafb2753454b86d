//! The order the name registry iterates in: lexicographic comparison of
//! names by character, the order a persistent string-keyed table hands its
//! entries out in.

use vstd::prelude::*;
use vstd::string::StrSliceExecFns;

verus! {

/// Strict lexicographic order on names: `a` comes before `b`.
pub open spec fn name_lt(a: Seq<char>, b: Seq<char>) -> bool
    decreases a.len(),
{
    if b.len() == 0 {
        false
    } else if a.len() == 0 {
        true
    } else if (a[0] as int) < (b[0] as int) {
        true
    } else if a[0] == b[0] {
        name_lt(a.drop_first(), b.drop_first())
    } else {
        false
    }
}

/// The order is total: two names are equal or one comes before the other.
pub proof fn lemma_name_lt_total(a: Seq<char>, b: Seq<char>)
    ensures
        a == b || name_lt(a, b) || name_lt(b, a),
    decreases a.len(),
{
    if a.len() == 0 && b.len() == 0 {
        assert(a =~= b);
    } else if a.len() > 0 && b.len() > 0 {
        if a[0] == b[0] {
            lemma_name_lt_total(a.drop_first(), b.drop_first());
            if a.drop_first() == b.drop_first() {
                assert(a.len() == b.len());
                assert forall|k: int| 0 <= k < a.len() implies a[k] == b[k] by {
                    if k > 0 {
                        assert(a.drop_first()[k - 1] == a[k]);
                        assert(b.drop_first()[k - 1] == b[k]);
                    }
                }
                assert(a =~= b);
            }
        } else {
            assert(a[0] as int != b[0] as int);
        }
    }
}

/// The order is transitive.
pub proof fn lemma_name_lt_trans(a: Seq<char>, b: Seq<char>, c: Seq<char>)
    requires
        name_lt(a, b),
        name_lt(b, c),
    ensures
        name_lt(a, c),
    decreases a.len(),
{
    if a.len() > 0 && b.len() > 0 && c.len() > 0 {
        if a[0] == b[0] && b[0] == c[0] {
            lemma_name_lt_trans(a.drop_first(), b.drop_first(), c.drop_first());
        }
    }
}

/// An association sequence keyed by names, in strictly ascending name
/// order: the order a persistent string-keyed table iterates in. Strict
/// ascent also makes the keys unique.
pub open spec fn sorted_by_name<V>(s: Seq<(Seq<char>, V)>) -> bool {
    forall|i: int| 0 <= i && i + 1 < s.len()
        ==> name_lt((#[trigger] s[i]).0, s[i + 1].0)
}

/// Whether `a` comes strictly before `b`, by characters.
pub fn str_lt(a: &str, b: &str) -> (r: bool)
    ensures
        r == name_lt(a@, b@),
{
    let a_len = a.unicode_len();
    let b_len = b.unicode_len();
    let mut i: usize = 0;
    proof {
        assert(a@.skip(0) =~= a@);
        assert(b@.skip(0) =~= b@);
    }
    while i < a_len && i < b_len
        invariant
            a_len == a@.len(),
            b_len == b@.len(),
            i <= a_len,
            i <= b_len,
            name_lt(a@, b@) == name_lt(a@.skip(i as int), b@.skip(i as int)),
        decreases a_len - i,
    {
        let ca = a.get_char(i);
        let cb = b.get_char(i);
        proof {
            assert(a@.skip(i as int)[0] == a@[i as int]);
            assert(b@.skip(i as int)[0] == b@[i as int]);
        }
        if (ca as u32) < (cb as u32) {
            return true;
        }
        if (ca as u32) > (cb as u32) {
            return false;
        }
        proof {
            assert(a@.skip(i as int).drop_first() =~= a@.skip(i as int + 1));
            assert(b@.skip(i as int).drop_first() =~= b@.skip(i as int + 1));
        }
        i += 1;
    }
    proof {
        if i == a_len {
            assert(a@.skip(i as int).len() == 0);
        }
        if i == b_len {
            assert(b@.skip(i as int).len() == 0);
        }
    }
    a_len < b_len
}

} // verus!
