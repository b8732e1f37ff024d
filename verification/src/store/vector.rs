//! Vectors as text: which vectors are embeddings, and the `[x,y,z]` form in which they are kept.
//!
//! A number of a vector is given by the 32 bits of its IEEE 754 form: a sign, eight bits of
//! exponent and 23 bits of fraction. The numerals of its numbers are written and read elsewhere.

use crate::boundary::{self, quoted};
use crate::text::{
    chars_of, decimal, decimal_usize, is_white, lemma_split_joined, lemma_split_plain, split,
    stripped, texts, trimmed,
};
use crate::types::{StoreError, StoreErrorModel};
use vstd::prelude::*;
use vstd::string::*;

verus! {

/// The bits of infinity: the exponent's bits all set. What is above is not a number.
pub const INFINITE: u32 = 0x7f80_0000;

/// The bits of 2 to the power of -75, the largest number whose square rounds to zero.
pub const FAINT: u32 = 0x1a00_0000;

/// The bit of the sign.
pub const SIGN: u32 = 0x8000_0000;

/// The bits of a number without its sign.
pub open spec fn magnitude(bits: u32) -> int {
    bits as int % SIGN as int
}

/// That the bits are those of a finite number.
pub open spec fn is_finite(bits: u32) -> bool {
    magnitude(bits) < INFINITE
}

/// What is written for a number that is not finite.
pub open spec fn unbounded_text(bits: u32) -> Seq<char> {
    if magnitude(bits) > INFINITE {
        "NaN"@
    } else if bits >= SIGN {
        "-inf"@
    } else {
        "inf"@
    }
}

/// The place of the first number that is not finite.
pub open spec fn unbounded_at(v: Seq<u32>) -> Option<nat>
    decreases v.len(),
{
    if v.len() == 0 {
        None
    } else {
        match unbounded_at(v.drop_last()) {
            Some(i) => Some(i),
            None => if is_finite(v.last()) {
                None
            } else {
                Some((v.len() - 1) as nat)
            },
        }
    }
}

/// That a vector has numbers, but the squares of all of them are too small to be told from zero, so
/// that its length is zero.
pub open spec fn has_no_length(v: Seq<u32>) -> bool {
    v.len() > 0 && forall|i: int| 0 <= i < v.len() ==> magnitude(#[trigger] v[i]) <= FAINT
}

/// Why a vector is no embedding, if so: a number in it is not finite, or it has no direction.
pub open spec fn embedding_fault(v: Seq<u32>) -> Option<StoreErrorModel> {
    match unbounded_at(v) {
        Some(i) => Some(
            StoreErrorModel::Backend(
                "embedding contains non-finite value "@ + unbounded_text(v[i as int])
                    + " (at index Some("@ + decimal(i) + "))"@,
            ),
        ),
        None => if has_no_length(v) {
            Some(
                StoreErrorModel::Backend(
                    "embedding has zero norm over "@ + decimal(v.len())
                        + " dimensions, which violates the unit-norm output contract of Embedder::embed. A vector with no direction has no cosine to anything: pgvector scores it NaN against every row and CockroachDB scores it a flat 0.5, so the same data would rank differently on the two stores. Refusing to write or query it"@,
                ),
            )
        } else {
            None
        },
    }
}

fn unbounded_name(bits: u32) -> (s: &'static str)
    ensures
        s@ == unbounded_text(bits),
{
    if bits % SIGN > INFINITE {
        "NaN"
    } else if bits >= SIGN {
        "-inf"
    } else {
        "inf"
    }
}

proof fn lemma_first_stays(v: Seq<u32>, n: int)
    requires
        0 <= n <= v.len(),
        unbounded_at(v.take(n)) is Some,
    ensures
        unbounded_at(v) == unbounded_at(v.take(n)),
    decreases v.len(),
{
    if n == v.len() {
        assert(v.take(n) =~= v);
    } else {
        assert(v.drop_last().take(n) =~= v.take(n));
        lemma_first_stays(v.drop_last(), n);
    }
}

/// Tests that a vector is an embedding: that its numbers are finite, and that it has a direction.
pub fn ensure_is_an_embedding(v: &Vec<u32>) -> (r: Result<(), StoreError>)
    ensures
        match r {
            Ok(()) => embedding_fault(v@) is None,
            Err(e) => embedding_fault(v@) == Some(e@),
        },
{
    let mut i: usize = 0;
    let mut faint = true;
    while i < v.len()
        invariant
            i <= v@.len(),
            unbounded_at(v@.take(i as int)) is None,
            faint == forall|j: int| 0 <= j < i ==> magnitude(#[trigger] v@[j]) <= FAINT,
        decreases v@.len() - i,
    {
        let x: u32 = v[i];
        proof {
            assert(v@.take(i + 1).drop_last() =~= v@.take(i as int));
            assert(v@.take(i + 1).last() == x);
        }
        if x % SIGN >= INFINITE {
            proof {
                lemma_first_stays(v@, i + 1);
            }
            let mut s = "embedding contains non-finite value ".to_owned();
            s.append(unbounded_name(x));
            s.append(" (at index Some(");
            s.append(decimal_usize(i).as_str());
            s.append("))");
            return Err(StoreError::Backend(s));
        }
        if x % SIGN > FAINT {
            assert(magnitude(v@[i as int]) > FAINT);
            faint = false;
        }
        i = i + 1;
    }
    proof {
        assert(v@.take(v@.len() as int) =~= v@);
    }
    if v.len() > 0 && faint {
        let mut s = "embedding has zero norm over ".to_owned();
        s.append(decimal_usize(v.len()).as_str());
        s.append(
            " dimensions, which violates the unit-norm output contract of Embedder::embed. A vector with no direction has no cosine to anything: pgvector scores it NaN against every row and CockroachDB scores it a flat 0.5, so the same data would rank differently on the two stores. Refusing to write or query it",
        );
        return Err(StoreError::Backend(s));
    }
    Ok(())
}

/// Texts, with a comma between each two.
pub open spec fn listed(parts: Seq<Seq<char>>) -> Seq<char>
    decreases parts.len(),
{
    if parts.len() == 0 {
        Seq::empty()
    } else if parts.len() == 1 {
        parts[0]
    } else {
        listed(parts.drop_last()) + ","@ + parts.last()
    }
}

/// The text of a vector whose numbers have these numerals.
pub open spec fn vector_text(numerals: Seq<Seq<char>>) -> Seq<char> {
    "["@ + listed(numerals) + "]"@
}

/// Writes a vector, given by its numbers and by their numerals.
pub fn encode_vector(v: &Vec<u32>, numerals: &Vec<String>) -> (r: Result<String, StoreError>)
    requires
        numerals@.len() == v@.len(),
    ensures
        match r {
            Ok(s) => embedding_fault(v@) is None && s@ == vector_text(texts(numerals@)),
            Err(e) => embedding_fault(v@) == Some(e@),
        },
{
    match ensure_is_an_embedding(v) {
        Ok(()) => {},
        Err(e) => {
            return Err(e);
        },
    }
    let ghost all = texts(numerals@);
    let mut s = "[".to_owned();
    let mut i: usize = 0;
    proof {
        assert(all.take(0) =~= Seq::empty());
        assert(s@ =~= "["@ + listed(all.take(0)));
    }
    while i < numerals.len()
        invariant
            all == texts(numerals@),
            i <= numerals@.len(),
            s@ == "["@ + listed(all.take(i as int)),
        decreases numerals@.len() - i,
    {
        let ghost before = s@;
        if i > 0 {
            s.append(",");
        }
        s.append(numerals[i].as_str());
        proof {
            assert(all.take(i + 1).drop_last() =~= all.take(i as int));
            assert(all.take(i + 1).last() == numerals@[i as int]@);
            if i == 0 {
                assert(listed(all.take(0)) =~= Seq::empty());
                assert(s@ =~= "["@ + listed(all.take(1)));
            } else {
                assert(s@ =~= "["@ + listed(all.take(i + 1)));
            }
        }
        i = i + 1;
    }
    proof {
        assert(all.take(all.len() as int) =~= all);
    }
    s.append("]");
    Ok(s)
}

/// A text without a character, however often it ends with it.
pub open spec fn cut(s: Seq<char>, c: char) -> Seq<char>
    decreases s.len(),
{
    if s.len() > 0 && s.last() == c {
        cut(s.drop_last(), c)
    } else {
        s
    }
}

/// What stands between the brackets of a vector's text.
pub open spec fn between_brackets(s: Seq<char>) -> Seq<char> {
    cut(stripped(trimmed(s), seq!['[']), ']')
}

/// The pieces of a vector's text, one for each number.
pub open spec fn pieces(s: Seq<char>) -> Seq<Seq<char>> {
    let inner = between_brackets(s);
    if inner.len() == 0 {
        Seq::empty()
    } else {
        split(inner, ',')
    }
}

/// A piece of a vector's text, and the numeral in it.
#[derive(Debug)]
pub struct Element {
    pub piece: String,
    pub numeral: String,
}

/// The pieces of elements.
pub open spec fn pieces_of(v: Seq<Element>) -> Seq<Seq<char>> {
    Seq::new(v.len(), |i: int| v[i].piece@)
}

/// That every numeral is its piece without the white space around it.
pub open spec fn are_trimmed(v: Seq<Element>) -> bool {
    forall|i: int| 0 <= i < v.len() ==> (#[trigger] v[i]).numeral@ == trimmed(v[i].piece@)
}

fn element(piece: &str) -> (e: Element)
    ensures
        e.piece@ == piece@,
        e.numeral@ == trimmed(piece@),
{
    Element { piece: piece.to_owned(), numeral: boundary::trim(piece).to_owned() }
}

fn elements_between(t: &str, lo: usize, hi: usize, chars: &Vec<char>) -> (v: Vec<Element>)
    requires
        lo <= hi <= t@.len(),
        chars@ == t@,
    ensures
        pieces_of(v@) == split(t@.subrange(lo as int, hi as int), ','),
        are_trimmed(v@),
{
    let ghost inner = t@.subrange(lo as int, hi as int);
    let mut v: Vec<Element> = Vec::new();
    let mut start: usize = lo;
    let mut i: usize = lo;
    proof {
        assert(inner.take(0) =~= Seq::empty());
        assert(t@.subrange(lo as int, lo as int) =~= Seq::empty());
        assert(pieces_of(v@).push(t@.subrange(lo as int, lo as int)) =~= split(inner.take(0), ','));
    }
    while i < hi
        invariant
            lo <= start <= i <= hi <= t@.len(),
            chars@ == t@,
            inner == t@.subrange(lo as int, hi as int),
            are_trimmed(v@),
            pieces_of(v@).push(t@.subrange(start as int, i as int)) == split(
                inner.take(i - lo),
                ',',
            ),
        decreases hi - i,
    {
        let ghost done = pieces_of(v@);
        let ghost before = split(inner.take(i - lo), ',');
        let ghost last = t@.subrange(start as int, i as int);
        proof {
            assert(inner.take(i + 1 - lo).drop_last() =~= inner.take(i - lo));
            assert(inner.take(i + 1 - lo).last() == t@[i as int]);
            assert(before.drop_last() =~= done);
            assert(before.last() == last);
        }
        if chars[i] == ',' {
            v.push(element(t.substring_char(start, i)));
            start = i + 1;
            proof {
                assert(pieces_of(v@) =~= before);
                assert(t@.subrange(start as int, start as int) =~= Seq::empty());
            }
        } else {
            proof {
                assert(t@.subrange(start as int, i + 1) =~= last.push(t@[i as int]));
            }
        }
        i = i + 1;
        proof {
            assert(pieces_of(v@).push(t@.subrange(start as int, i as int)) =~= split(
                inner.take(i - lo),
                ',',
            ));
        }
    }
    let ghost done = pieces_of(v@);
    v.push(element(t.substring_char(start, hi)));
    proof {
        assert(inner.take(hi - lo) =~= inner);
        assert(pieces_of(v@) =~= done.push(t@.subrange(start as int, hi as int)));
    }
    v
}

/// Takes a vector's text apart.
pub fn vector_elements(s: &str) -> (v: Vec<Element>)
    ensures
        pieces_of(v@) == pieces(s@),
        are_trimmed(v@),
{
    let t = boundary::trim(s);
    let chars = chars_of(t);
    let n: usize = chars.len();
    let mut lo: usize = 0;
    let ghost opened = stripped(t@, seq!['[']);
    proof {
        assert(t@.skip(0) =~= t@);
    }
    while lo < n && chars[lo] == '['
        invariant
            n == chars@.len(),
            chars@ == t@,
            lo <= n,
            opened == stripped(t@.skip(lo as int), seq!['[']),
        decreases n - lo,
    {
        proof {
            let rest = t@.skip(lo as int);
            assert(rest.take(1) =~= seq!['[']);
            assert(rest.skip(1) =~= t@.skip(lo + 1));
        }
        lo = lo + 1;
    }
    proof {
        let rest = t@.skip(lo as int);
        if rest.len() > 0 {
            assert(rest.take(1)[0] != '[');
        }
        assert(opened == rest);
    }
    let mut hi: usize = n;
    proof {
        assert(t@.subrange(lo as int, n as int) =~= opened);
    }
    while hi > lo && chars[hi - 1] == ']'
        invariant
            n == chars@.len(),
            chars@ == t@,
            lo <= hi <= n,
            cut(opened, ']') == cut(t@.subrange(lo as int, hi as int), ']'),
        decreases hi - lo,
    {
        proof {
            let rest = t@.subrange(lo as int, hi as int);
            assert(rest.drop_last() =~= t@.subrange(lo as int, hi - 1));
        }
        hi = hi - 1;
    }
    assert(cut(opened, ']') == t@.subrange(lo as int, hi as int));
    if lo == hi {
        let none: Vec<Element> = Vec::new();
        assert(pieces_of(none@) =~= Seq::empty());
        return none;
    }
    elements_between(t, lo, hi, &chars)
}

/// The error of a piece whose numeral cannot be read.
pub open spec fn piece_fault(piece: Seq<char>, s: Seq<char>, why: Seq<char>) -> StoreErrorModel {
    StoreErrorModel::Backend(
        "decode VECTOR element "@ + quoted(piece) + " from "@ + quoted(s) + ": "@ + why,
    )
}

/// What a vector's text holds, given what its numerals were read as: their numbers, or the error of
/// the first that cannot be read.
pub open spec fn vector_read(
    s: Seq<char>,
    pieces: Seq<Seq<char>>,
    read: Seq<Result<u32, String>>,
) -> Result<Seq<u32>, StoreErrorModel>
    decreases read.len(),
{
    if read.len() == 0 {
        Ok(Seq::empty())
    } else {
        match vector_read(s, pieces, read.drop_last()) {
            Err(e) => Err(e),
            Ok(v) => match read.last() {
                Ok(x) => Ok(v.push(x)),
                Err(why) => Err(piece_fault(pieces[read.len() - 1], s, why@)),
            },
        }
    }
}

proof fn lemma_unread_stays(
    s: Seq<char>,
    pieces: Seq<Seq<char>>,
    read: Seq<Result<u32, String>>,
    n: int,
)
    requires
        0 <= n <= read.len(),
        vector_read(s, pieces, read.take(n)) is Err,
    ensures
        vector_read(s, pieces, read) == vector_read(s, pieces, read.take(n)),
    decreases read.len(),
{
    if n == read.len() {
        assert(read.take(n) =~= read);
    } else {
        assert(read.drop_last().take(n) =~= read.take(n));
        lemma_unread_stays(s, pieces, read.drop_last(), n);
    }
}

/// Reads a vector, given its text, the elements of the text and what their numerals were read as.
pub fn decode_vector(s: &str, elements: &Vec<Element>, read: &Vec<Result<u32, String>>) -> (r:
    Result<Vec<u32>, StoreError>)
    requires
        read@.len() == elements@.len(),
    ensures
        match r {
            Ok(v) => vector_read(s@, pieces_of(elements@), read@) == Ok::<
                Seq<u32>,
                StoreErrorModel,
            >(v@),
            Err(e) => vector_read(s@, pieces_of(elements@), read@) == Err::<
                Seq<u32>,
                StoreErrorModel,
            >(e@),
        },
{
    let ghost all = pieces_of(elements@);
    let mut v: Vec<u32> = Vec::new();
    let mut i: usize = 0;
    proof {
        assert(read@.take(0) =~= Seq::empty());
    }
    while i < read.len()
        invariant
            all == pieces_of(elements@),
            read@.len() == elements@.len(),
            i <= read@.len(),
            vector_read(s@, all, read@.take(i as int)) == Ok::<Seq<u32>, StoreErrorModel>(v@),
        decreases read@.len() - i,
    {
        proof {
            assert(read@.take(i + 1).drop_last() =~= read@.take(i as int));
            assert(read@.take(i + 1).last() == read@[i as int]);
        }
        match &read[i] {
            Ok(x) => {
                v.push(*x);
            },
            Err(why) => {
                let mut text = "decode VECTOR element ".to_owned();
                text.append(boundary::quote(elements[i].piece.as_str()).as_str());
                text.append(" from ");
                text.append(boundary::quote(s).as_str());
                text.append(": ");
                text.append(why.as_str());
                proof {
                    lemma_unread_stays(s@, all, read@, i + 1);
                }
                return Err(StoreError::Backend(text));
            },
        }
        i = i + 1;
    }
    proof {
        assert(read@.take(read@.len() as int) =~= read@);
    }
    Ok(v)
}

/// That a text can be a numeral in a vector's text: it holds neither brackets, commas nor white
/// space, and is not empty.
pub open spec fn is_plain(s: Seq<char>) -> bool {
    &&& s.len() > 0
    &&& forall|i: int|
        0 <= i < s.len() ==> s[i] != '[' && s[i] != ']' && s[i] != ',' && !is_white(
            #[trigger] s[i],
        )
}

proof fn lemma_listed(numerals: Seq<Seq<char>>)
    requires
        numerals.len() > 0,
        forall|i: int| 0 <= i < numerals.len() ==> is_plain(#[trigger] numerals[i]),
    ensures
        split(listed(numerals), ',') == numerals,
        listed(numerals).len() > 0,
        listed(numerals)[0] != '[',
        listed(numerals).last() != ']',
    decreases numerals.len(),
{
    reveal_strlit(",");
    let last = numerals.last();
    assert(last == numerals[numerals.len() - 1]);
    assert(is_plain(last));
    assert(!last.contains(','));
    lemma_split_plain(last, ',');
    if numerals.len() == 1 {
        assert(seq![last] =~= numerals);
    } else {
        let less = numerals.drop_last();
        assert forall|i: int| 0 <= i < less.len() implies is_plain(#[trigger] less[i]) by {
            assert(less[i] == numerals[i]);
        }
        lemma_listed(less);
        lemma_split_joined(listed(less), ',', last);
        assert(listed(numerals) =~= listed(less) + seq![','] + last);
        assert(less + seq![last] =~= numerals);
    }
}

/// What is written of a vector comes apart into the numerals that it was written with.
pub proof fn a_vector_reads_back(numerals: Seq<Seq<char>>)
    requires
        forall|i: int| 0 <= i < numerals.len() ==> is_plain(#[trigger] numerals[i]),
    ensures
        pieces(vector_text(numerals)) == numerals,
        forall|i: int| 0 <= i < numerals.len() ==> trimmed(#[trigger] numerals[i]) == numerals[i],
{
    reveal_strlit("[");
    reveal_strlit("]");
    let inner = listed(numerals);
    let s = vector_text(numerals);
    let open = seq!['['];
    assert(s =~= open + inner + seq![']']);
    assert(trimmed(s) == s);
    assert(s.take(1) =~= open);
    let rest = inner + seq![']'];
    assert(s.skip(1) =~= rest);
    if numerals.len() > 0 {
        lemma_listed(numerals);
        assert(rest[0] == inner[0]);
    }
    assert(rest.take(1)[0] == rest[0]);
    assert(stripped(rest, open) == rest);
    assert(stripped(s, open) == rest);
    assert(rest.drop_last() =~= inner);
    assert(cut(rest, ']') == cut(inner, ']'));
    assert(cut(inner, ']') == inner);
    assert forall|i: int| 0 <= i < numerals.len() implies trimmed(#[trigger] numerals[i])
        == numerals[i] by {
        let n = numerals[i];
        assert(is_plain(n));
        assert(!is_white(n[0]));
        assert(!is_white(n[n.len() - 1]));
    }
    if numerals.len() == 0 {
        assert(pieces(s) =~= numerals);
    }
}

/// A vector is refused for its length only where none of its numbers is large enough, whatever
/// their signs and their order.
pub proof fn one_number_gives_a_direction(v: Seq<u32>, i: int)
    requires
        0 <= i < v.len(),
        unbounded_at(v) is None,
        magnitude(v[i]) > FAINT,
    ensures
        embedding_fault(v) is None,
{
}

} // verus!
