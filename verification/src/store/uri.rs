//! Which database a path names: a file, or one that lives in memory.

use crate::boundary;
use crate::text::{
    begins_with, char_views, chars_of, same_chars, split, split_chars, stripped, trimmed,
};
use vstd::prelude::*;
use vstd::string::*;

verus! {

fn begins_at(v: &Vec<char>, at: usize, prefix: &Vec<char>) -> (r: bool)
    requires
        at <= v@.len(),
    ensures
        r == begins_with(v@.skip(at as int), prefix@),
{
    let ghost s = v@.skip(at as int);
    if prefix.len() > v.len() - at {
        return false;
    }
    let mut i: usize = 0;
    while i < prefix.len()
        invariant
            s == v@.skip(at as int),
            at + prefix@.len() <= v@.len() <= usize::MAX,
            i <= prefix@.len(),
            forall|j: int| 0 <= j < i ==> s[j] == prefix@[j],
        decreases prefix@.len() - i,
    {
        if v[at + i] != prefix[i] {
            proof {
                assert(s.take(prefix@.len() as int)[i as int] != prefix@[i as int]);
            }
            return false;
        }
        i = i + 1;
    }
    proof {
        assert(s.take(prefix@.len() as int) =~= prefix@);
    }
    true
}

fn skip_prefix(v: &Vec<char>, at: usize, prefix: &Vec<char>) -> (r: usize)
    requires
        at <= v@.len(),
    ensures
        at <= r <= v@.len(),
        v@.skip(r as int) == stripped(v@.skip(at as int), prefix@),
{
    let n: usize = v.len();
    let mut i: usize = at;
    while prefix.len() > 0 && begins_at(v, i, prefix)
        invariant
            at <= i <= v@.len(),
            n == v@.len(),
            stripped(v@.skip(i as int), prefix@) == stripped(v@.skip(at as int), prefix@),
        decreases v@.len() - i,
    {
        proof {
            assert(v@.skip(i as int).skip(prefix@.len() as int) =~= v@.skip(i + prefix@.len()));
        }
        i = i + prefix.len();
    }
    i
}

/// That a character stands first at a place.
pub open spec fn is_first(s: Seq<char>, c: char, i: int) -> bool {
    0 <= i < s.len() && s[i] == c && forall|j: int| 0 <= j < i ==> s[j] != c
}

/// What stands before the first of a character; all where it does not stand there.
pub open spec fn before_first(s: Seq<char>, c: char) -> Seq<char> {
    if exists|i: int| #[trigger] is_first(s, c, i) {
        s.take(choose|i: int| #[trigger] is_first(s, c, i))
    } else {
        s
    }
}

/// What stands behind the first of a character, if it stands there.
pub open spec fn behind_first(s: Seq<char>, c: char) -> Option<Seq<char>> {
    if exists|i: int| #[trigger] is_first(s, c, i) {
        Some(s.skip((choose|i: int| #[trigger] is_first(s, c, i)) + 1))
    } else {
        None
    }
}

/// The part of a path that names a database, with its parameters.
pub open spec fn uri_rest(path: Seq<char>) -> Seq<char> {
    stripped(stripped(trimmed(path), "sqlite://"@), "sqlite:"@)
}

/// Whether a path names a database in memory: its name is `:memory:`, or one of its parameters is
/// `mode=memory`.
pub open spec fn names_memory(path: Seq<char>) -> bool {
    let rest = uri_rest(path);
    before_first(rest, '?') == ":memory:"@ || match behind_first(rest, '?') {
        Some(query) => split(query, '&').contains("mode=memory"@),
        None => false,
    }
}

fn copied(v: &Vec<char>, from: usize, to: usize) -> (r: Vec<char>)
    requires
        from <= to <= v@.len(),
    ensures
        r@ == v@.subrange(from as int, to as int),
{
    let mut r: Vec<char> = Vec::new();
    let mut i: usize = from;
    while i < to
        invariant
            from <= i <= to <= v@.len(),
            r@ == v@.subrange(from as int, i as int),
        decreases to - i,
    {
        r.push(v[i]);
        proof {
            assert(v@.subrange(from as int, i + 1) =~= v@.subrange(from as int, i as int).push(
                v@[i as int],
            ));
        }
        i = i + 1;
    }
    r
}

/// Whether a path names a database in memory.
pub fn is_in_memory_uri(path: &str) -> (r: bool)
    ensures
        r == names_memory(path@),
{
    let v = chars_of(boundary::trim(path));
    proof {
        assert(v@.skip(0) =~= v@);
    }
    let start = skip_prefix(&v, 0, &chars_of("sqlite://"));
    let start = skip_prefix(&v, start, &chars_of("sqlite:"));
    let ghost rest = v@.skip(start as int);
    let mut at: usize = start;
    while at < v.len() && v[at] != '?'
        invariant
            start <= at <= v@.len(),
            forall|j: int| start <= j < at ==> v@[j] != '?',
        decreases v@.len() - at,
    {
        at = at + 1;
    }
    let name = copied(&v, start, at);
    proof {
        assert(rest == uri_rest(path@));
        if at < v@.len() {
            let k = at - start;
            assert forall|j: int| 0 <= j < k implies rest[j] != '?' by {
                assert(rest[j] == v@[start + j]);
            }
            assert(is_first(rest, '?', k));
            let i = choose|i: int| #[trigger] is_first(rest, '?', i);
            assert(is_first(rest, '?', i));
            assert(i == k);
            assert(rest.take(k) =~= name@);
        } else {
            assert forall|i: int| !#[trigger] is_first(rest, '?', i) by {
                if is_first(rest, '?', i) {
                    assert(rest[i] == v@[start + i]);
                }
            }
            assert(rest =~= name@);
        }
    }
    if same_chars(&name, &chars_of(":memory:")) {
        return true;
    }
    if at >= v.len() {
        return false;
    }
    let query = copied(&v, at + 1, v.len());
    proof {
        let i = choose|i: int| #[trigger] is_first(rest, '?', i);
        assert(is_first(rest, '?', at - start));
        assert(is_first(rest, '?', i));
        assert(i == at - start);
        assert(rest.skip(i + 1) =~= query@);
    }
    let params = split_chars(&query, '&');
    let wanted = chars_of("mode=memory");
    let mut i: usize = 0;
    while i < params.len()
        invariant
            i <= params@.len(),
            wanted@ == "mode=memory"@,
            char_views(params@) == split(query@, '&'),
            behind_first(uri_rest(path@), '?') == Some(query@),
            before_first(uri_rest(path@), '?') != ":memory:"@,
            forall|j: int| 0 <= j < i ==> (#[trigger] params@[j])@ != "mode=memory"@,
        decreases params@.len() - i,
    {
        if same_chars(&params[i], &wanted) {
            proof {
                assert(char_views(params@)[i as int] == "mode=memory"@);
            }
            return true;
        }
        i = i + 1;
    }
    proof {
        assert forall|j: int| 0 <= j < char_views(params@).len() implies #[trigger] char_views(
            params@,
        )[j] != "mode=memory"@ by {
            assert(char_views(params@)[j] == params@[j]@);
        }
    }
    false
}

proof fn lemma_stripped(s: Seq<char>, prefix: Seq<char>)
    requires
        prefix.len() > 0,
    ensures
        !begins_with(stripped(s, prefix), prefix),
    decreases s.len(),
{
    if begins_with(s, prefix) {
        lemma_stripped(s.skip(prefix.len() as int), prefix);
    }
}

/// What names a database is a path without the scheme, however often it stands before it; a path
/// without space around it and without a scheme is taken as it is.
pub proof fn a_scheme_is_no_part_of_the_name(path: Seq<char>)
    ensures
        !begins_with(uri_rest(path), "sqlite:"@),
        trimmed(path) == path && !begins_with(path, "sqlite:"@) ==> uri_rest(path) == path,
        forall|q: Seq<char>|
            trimmed(path) == #[trigger] ("sqlite:"@ + q) && !begins_with(q, "//"@) ==> uri_rest(
                path,
            ) == stripped(q, "sqlite:"@),
        forall|q: Seq<char>|
            trimmed(path) == #[trigger] ("sqlite://"@ + q) && !begins_with(q, "sqlite:"@)
                ==> uri_rest(path) == q,
{
    reveal_strlit("sqlite:");
    reveal_strlit("sqlite://");
    reveal_strlit("//");
    let scheme = "sqlite:"@;
    let longer = "sqlite://"@;
    assert(longer.take(7) =~= scheme);
    assert forall|s: Seq<char>| #[trigger] begins_with(s, longer) implies begins_with(
        s,
        scheme,
    ) by {
        assert(s.take(7) =~= s.take(9).take(7));
    }
    lemma_stripped(stripped(trimmed(path), longer), scheme);
    assert forall|q: Seq<char>|
        trimmed(path) == #[trigger] (scheme + q) && !begins_with(q, "//"@) implies uri_rest(path)
        == stripped(q, scheme) by {
        let s = scheme + q;
        if begins_with(s, longer) {
            assert(q.take(2) =~= s.take(9).skip(7));
            assert(longer.skip(7) =~= "//"@);
        }
        assert(s.take(7) =~= scheme);
        assert(s.skip(7) =~= q);
    }
    assert forall|q: Seq<char>|
        trimmed(path) == #[trigger] (longer + q) && !begins_with(q, scheme) implies uri_rest(path)
        == q by {
        let s = longer + q;
        assert(s.take(9) =~= longer);
        assert(s.skip(9) =~= q);
        assert(!begins_with(q, longer));
        assert(stripped(q, longer) == q);
        assert(stripped(s, longer) == q);
    }
}

/// A path names a database in memory where its name is `:memory:`, whatever its parameters, or
/// where one of its parameters is `mode=memory`, whatever its name; and nowhere else.
pub proof fn memory_is_named_or_asked_for(path: Seq<char>, name: Seq<char>, query: Seq<char>)
    requires
        !name.contains('?'),
    ensures
        uri_rest(path) == name ==> (names_memory(path) <==> name == ":memory:"@),
        uri_rest(path) == name + seq!['?'] + query ==> (names_memory(path) <==> name == ":memory:"@
            || exists|i: int|
            0 <= i < split(query, '&').len() && split(query, '&')[i] == "mode=memory"@),
{
    let rest = uri_rest(path);
    if rest == name {
        assert forall|i: int| !#[trigger] is_first(rest, '?', i) by {
            if is_first(rest, '?', i) {
                assert(name.contains(name[i]));
            }
        }
    }
    if rest == name + seq!['?'] + query {
        let k = name.len() as int;
        assert forall|j: int| 0 <= j < k implies rest[j] != '?' by {
            assert(name.contains(name[j]));
        }
        assert(is_first(rest, '?', k));
        let i = choose|i: int| #[trigger] is_first(rest, '?', i);
        assert(is_first(rest, '?', i));
        assert(i == k);
        assert(rest.take(k) =~= name);
        assert(rest.skip(k + 1) =~= query);
    }
}

} // verus!
