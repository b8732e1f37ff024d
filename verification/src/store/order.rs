//! The order of texts: by their characters, the shorter first where one begins the other.

use crate::text::{chars_of, texts};
use vstd::prelude::*;
use vstd::string::*;

verus! {

/// Whether a text comes before another or is the same.
pub open spec fn text_no_later(a: Seq<char>, b: Seq<char>) -> bool
    decreases a.len(),
{
    if a.len() == 0 {
        true
    } else if b.len() == 0 {
        false
    } else if a[0] == b[0] {
        text_no_later(a.skip(1), b.skip(1))
    } else {
        a[0] < b[0]
    }
}

/// Whether a text comes before another.
pub open spec fn text_earlier(a: Seq<char>, b: Seq<char>) -> bool {
    text_no_later(a, b) && a != b
}

/// Of two texts one comes first, and both come first only where they are the same.
pub proof fn text_order_is_total(a: Seq<char>, b: Seq<char>)
    ensures
        text_no_later(a, b) || text_no_later(b, a),
        text_no_later(a, b) && text_no_later(b, a) ==> a == b,
        text_no_later(a, a),
    decreases a.len(),
{
    if a.len() > 0 {
        text_order_is_total(a.skip(1), if b.len() > 0 { b.skip(1) } else { b });
    }
    if a.len() == 0 && b.len() == 0 {
        assert(a =~= b);
    }
    if a.len() > 0 && b.len() > 0 && a[0] == b[0] && a.skip(1) == b.skip(1) {
        assert forall|i: int| 0 <= i < a.len() implies a[i] == b[i] by {
            if i > 0 {
                assert(a.skip(1)[i - 1] == b.skip(1)[i - 1]);
            }
        }
        assert(a.skip(1).len() == b.skip(1).len());
        assert(a =~= b);
    }
}

/// The order of texts carries over.
pub proof fn text_order_carries(a: Seq<char>, b: Seq<char>, c: Seq<char>)
    requires
        text_no_later(a, b),
        text_no_later(b, c),
    ensures
        text_no_later(a, c),
    decreases a.len(),
{
    if a.len() > 0 && b.len() > 0 && c.len() > 0 && a[0] == b[0] && b[0] == c[0] {
        text_order_carries(a.skip(1), b.skip(1), c.skip(1));
    }
}

/// Compares two texts.
pub fn no_later(a: &str, b: &str) -> (r: bool)
    ensures
        r == text_no_later(a@, b@),
{
    let x = chars_of(a);
    let y = chars_of(b);
    let mut i: usize = 0;
    proof {
        assert(x@.skip(0) =~= x@);
        assert(y@.skip(0) =~= y@);
    }
    while i < x.len() && i < y.len() && x[i] == y[i]
        invariant
            x@ == a@,
            y@ == b@,
            i <= x@.len(),
            i <= y@.len(),
            text_no_later(a@, b@) == text_no_later(x@.skip(i as int), y@.skip(i as int)),
        decreases x@.len() - i,
    {
        proof {
            let p = x@.skip(i as int);
            let q = y@.skip(i as int);
            assert(p[0] == x@[i as int]);
            assert(q[0] == y@[i as int]);
            assert(p.skip(1) =~= x@.skip(i + 1));
            assert(q.skip(1) =~= y@.skip(i + 1));
        }
        i = i + 1;
    }
    proof {
        let p = x@.skip(i as int);
        let q = y@.skip(i as int);
        assert(p.len() == x@.len() - i);
        assert(q.len() == y@.len() - i);
        if i < x@.len() && i < y@.len() {
            assert(p[0] == x@[i as int]);
            assert(q[0] == y@[i as int]);
        }
    }
    if i >= x.len() {
        true
    } else if i >= y.len() {
        false
    } else {
        x[i] < y[i]
    }
}

/// Compares two texts strictly.
pub fn earlier(a: &str, b: &str) -> (r: bool)
    ensures
        r == text_earlier(a@, b@),
{
    proof {
        text_order_is_total(a@, b@);
    }
    !no_later(b, a)
}

/// Whether a list of texts comes before another or is the same: the first text that differs
/// decides.
pub open spec fn list_no_later(a: Seq<Seq<char>>, b: Seq<Seq<char>>) -> bool
    decreases a.len(),
{
    if a.len() == 0 {
        true
    } else if b.len() == 0 {
        false
    } else if a[0] == b[0] {
        list_no_later(a.skip(1), b.skip(1))
    } else {
        text_no_later(a[0], b[0])
    }
}

/// Of two lists one comes first.
pub proof fn list_order_is_total(a: Seq<Seq<char>>, b: Seq<Seq<char>>)
    ensures
        list_no_later(a, b) || list_no_later(b, a),
        list_no_later(a, a),
    decreases a.len(),
{
    if a.len() > 0 {
        list_order_is_total(a.skip(1), if b.len() > 0 { b.skip(1) } else { b });
        if b.len() > 0 {
            text_order_is_total(a[0], b[0]);
        }
    }
}

/// The order of lists carries over.
pub proof fn list_order_carries(a: Seq<Seq<char>>, b: Seq<Seq<char>>, c: Seq<Seq<char>>)
    requires
        list_no_later(a, b),
        list_no_later(b, c),
    ensures
        list_no_later(a, c),
    decreases a.len(),
{
    if a.len() > 0 && b.len() > 0 && c.len() > 0 {
        if a[0] == b[0] && b[0] == c[0] {
            list_order_carries(a.skip(1), b.skip(1), c.skip(1));
        } else if a[0] != b[0] && b[0] != c[0] {
            text_order_carries(a[0], b[0], c[0]);
            if a[0] == c[0] {
                text_order_is_total(a[0], b[0]);
            }
        }
    }
}

/// Compares two lists of texts.
pub fn list_is_no_later(a: &Vec<String>, b: &Vec<String>) -> (r: bool)
    ensures
        r == list_no_later(texts(a@), texts(b@)),
{
    let ghost x = texts(a@);
    let ghost y = texts(b@);
    let mut i: usize = 0;
    proof {
        assert(x.skip(0) =~= x);
        assert(y.skip(0) =~= y);
    }
    while i < a.len() && i < b.len() && a[i] == b[i]
        invariant
            x == texts(a@),
            y == texts(b@),
            i <= a@.len(),
            i <= b@.len(),
            list_no_later(x, y) == list_no_later(x.skip(i as int), y.skip(i as int)),
        decreases a@.len() - i,
    {
        proof {
            let p = x.skip(i as int);
            let q = y.skip(i as int);
            assert(p[0] == a@[i as int]@);
            assert(q[0] == b@[i as int]@);
            assert(p.skip(1) =~= x.skip(i + 1));
            assert(q.skip(1) =~= y.skip(i + 1));
        }
        i = i + 1;
    }
    proof {
        let p = x.skip(i as int);
        let q = y.skip(i as int);
        assert(p.len() == a@.len() - i);
        assert(q.len() == b@.len() - i);
        if i < a@.len() && i < b@.len() {
            assert(p[0] == a@[i as int]@);
            assert(q[0] == b@[i as int]@);
        }
    }
    if i >= a.len() {
        true
    } else if i >= b.len() {
        false
    } else {
        no_later(a[i].as_str(), b[i].as_str())
    }
}

} // verus!
