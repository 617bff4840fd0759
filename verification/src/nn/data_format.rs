//! The text form of the inputs of a data set: records of numbers, written
//! `{a, b, c},{d, e, f}`.
//!
//! The text is cut into records at every `},{`; the braces that are left are
//! dropped; a record is cut into fields at every comma; the blanks of a field
//! are dropped. What a field then holds is the text of one number.
use vstd::prelude::*;

verus! {

/// The byte `{`.
pub const OPEN: u8 = 123;

/// The byte `}`.
pub const CLOSE: u8 = 125;

/// The byte `,`.
pub const COMMA: u8 = 44;

/// The byte of a blank.
pub const BLANK: u8 = 32;

/// The bytes `},{`, which stand between two records.
pub open spec fn record_separator() -> Seq<u8> {
    seq![CLOSE, COMMA, OPEN]
}

/// The bytes `,`, which stand between two fields.
pub open spec fn field_separator() -> Seq<u8> {
    seq![COMMA]
}

/// `pattern` stands in `text` at position `at`.
pub open spec fn matches_at(text: Seq<u8>, pattern: Seq<u8>, at: int) -> bool {
    &&& 0 <= at
    &&& at + pattern.len() <= text.len()
    &&& text.subrange(at, at + pattern.len()) == pattern
}

/// The first position at or after `from` at which `pattern` stands in
/// `text`; `-1` where there is none.
pub open spec fn first_match(text: Seq<u8>, pattern: Seq<u8>, from: int) -> int
    decreases text.len() - from,
{
    if from < 0 || pattern.len() == 0 || from + pattern.len() > text.len() {
        -1
    } else if matches_at(text, pattern, from) {
        from
    } else {
        first_match(text, pattern, from + 1)
    }
}

/// A match that the search finds lies at or after its start and has room in
/// the text.
pub proof fn lemma_match_has_room(text: Seq<u8>, pattern: Seq<u8>, from: int)
    requires
        0 <= from,
    ensures
        first_match(text, pattern, from) >= 0 ==> {
            &&& from <= first_match(text, pattern, from)
            &&& first_match(text, pattern, from) + pattern.len() <= text.len()
            &&& pattern.len() > 0
            &&& matches_at(text, pattern, first_match(text, pattern, from))
        },
    decreases text.len() - from,
{
    if !(pattern.len() == 0 || from + pattern.len() > text.len()) && !matches_at(text, pattern, from) {
        lemma_match_has_room(text, pattern, from + 1);
    }
}

/// The pieces of `text` between the occurrences of `pattern`, found from
/// left to right, none overlapping another. A text without an occurrence is
/// one piece.
pub open spec fn spec_split(text: Seq<u8>, pattern: Seq<u8>) -> Seq<Seq<u8>>
    decreases text.len(),
{
    let at = first_match(text, pattern, 0);
    if at < 0 || pattern.len() == 0 {
        seq![text]
    } else {
        proof {
            lemma_match_has_room(text, pattern, 0);
        }
        seq![text.subrange(0, at)] + spec_split(
            text.subrange(at + pattern.len(), text.len() as int),
            pattern,
        )
    }
}

/// `text` without the bytes that are `dropped`.
pub open spec fn spec_without(text: Seq<u8>, dropped: u8) -> Seq<u8> {
    text.filter(|byte: u8| byte != dropped)
}

/// The fields of one record: its braces dropped, cut at the commas, the
/// blanks of every field dropped.
pub open spec fn spec_fields(record: Seq<u8>) -> Seq<Seq<u8>> {
    spec_split(spec_without(spec_without(record, OPEN), CLOSE), field_separator()).map_values(
        |field: Seq<u8>| spec_without(field, BLANK),
    )
}

/// The fields of every record of a text.
pub open spec fn spec_number_fields(text: Seq<u8>) -> Seq<Seq<Seq<u8>>> {
    spec_split(text, record_separator()).map_values(|record: Seq<u8>| spec_fields(record))
}

/// The texts that the vectors hold.
pub open spec fn texts(pieces: Seq<Vec<u8>>) -> Seq<Seq<u8>> {
    pieces.map_values(|piece: Vec<u8>| piece@)
}

/// The fields that the vectors hold, record by record.
pub open spec fn field_texts(records: Seq<Vec<Vec<u8>>>) -> Seq<Seq<Seq<u8>>> {
    records.map_values(|record: Vec<Vec<u8>>| texts(record@))
}

/// Where the search for a match has passed the positions before `upto`
/// without a match, it goes on from `upto`.
proof fn lemma_search_goes_on(text: Seq<u8>, pattern: Seq<u8>, from: int, upto: int)
    requires
        0 <= from <= upto,
        forall|k: int| from <= k < upto ==> !matches_at(text, pattern, k),
    ensures
        first_match(text, pattern, from) == first_match(text, pattern, upto),
    decreases upto - from,
{
    if from < upto {
        lemma_search_goes_on(text, pattern, from + 1, upto);
        if pattern.len() == 0 || from + pattern.len() > text.len() {
            lemma_search_ends(text, pattern, upto);
        }
    }
}

/// Past the last position at which the pattern has room, there is no match.
proof fn lemma_search_ends(text: Seq<u8>, pattern: Seq<u8>, from: int)
    requires
        from < 0 || pattern.len() == 0 || from + pattern.len() > text.len(),
    ensures
        first_match(text, pattern, from) == -1,
{
}

/// Whether `pattern` stands in `text` at position `at`.
pub fn stands_at(text: &Vec<u8>, pattern: &Vec<u8>, at: usize) -> (r: bool)
    ensures
        r == matches_at(text@, pattern@, at as int),
{
    if pattern.len() > text.len() || at > text.len() - pattern.len() {
        return false;
    }
    let length = text.len();
    let mut k: usize = 0;
    while k < pattern.len()
        invariant
            k <= pattern@.len(),
            length == text@.len(),
            at + pattern@.len() <= text@.len(),
            forall|p: int| 0 <= p < k ==> text@[at + p] == pattern@[p],
        decreases pattern@.len() - k,
    {
        if text[at + k] != pattern[k] {
            assert(text@.subrange(at as int, at + pattern@.len())[k as int] == text@[at + k]);
            return false;
        }
        k = k + 1;
    }
    assert(text@.subrange(at as int, at + pattern@.len()) =~= pattern@);
    true
}

/// The bytes of `text` from `from` up to, not including, `to`.
pub fn copy_range(text: &Vec<u8>, from: usize, to: usize) -> (r: Vec<u8>)
    requires
        from <= to <= text@.len(),
    ensures
        r@ == text@.subrange(from as int, to as int),
{
    let mut piece: Vec<u8> = Vec::new();
    let mut k: usize = from;
    while k < to
        invariant
            from <= k <= to,
            to <= text@.len(),
            piece@ == text@.subrange(from as int, k as int),
        decreases to - k,
    {
        piece.push(text[k]);
        assert(text@.subrange(from as int, k + 1) =~= text@.subrange(from as int, k as int).push(
            text@[k as int],
        ));
        k = k + 1;
    }
    piece
}

/// Cuts `text` at every occurrence of `pattern`, found from left to right.
/// With an empty pattern the text stays in one piece.
pub fn split(text: &Vec<u8>, pattern: &Vec<u8>) -> (r: Vec<Vec<u8>>)
    ensures
        texts(r@) == spec_split(text@, pattern@),
{
    let mut pieces: Vec<Vec<u8>> = Vec::new();
    if pattern.len() == 0 {
        pieces.push(copy_range(text, 0, text.len()));
        assert(text@.subrange(0, text@.len() as int) =~= text@);
        assert(texts(pieces@) =~= seq![text@]);
        return pieces;
    }
    let mut start: usize = 0;
    let mut at: usize = 0;
    proof {
        assert(text@.subrange(0, text@.len() as int) =~= text@);
        assert(texts(pieces@) + spec_split(text@, pattern@) =~= spec_split(text@, pattern@));
    }
    while at < text.len()
        invariant
            pattern@.len() > 0,
            start <= at <= text@.len(),
            forall|k: int|
                0 <= k < at - start ==> !matches_at(
                    text@.subrange(start as int, text@.len() as int),
                    pattern@,
                    k,
                ),
            spec_split(text@, pattern@) == texts(pieces@) + spec_split(
                text@.subrange(start as int, text@.len() as int),
                pattern@,
            ),
        decreases text@.len() - at,
    {
        let ghost rest = text@.subrange(start as int, text@.len() as int);
        if stands_at(text, pattern, at) {
            proof {
                assert(matches_at(rest, pattern@, at - start)) by {
                    assert(rest.subrange(at - start, at - start + pattern@.len()) =~= text@.subrange(
                        at as int,
                        at + pattern@.len(),
                    ));
                }
                lemma_search_goes_on(rest, pattern@, 0, at - start);
                assert(first_match(rest, pattern@, 0) == at - start);
                assert(rest.subrange(0, at - start) =~= text@.subrange(start as int, at as int));
                assert(rest.subrange(at - start + pattern@.len(), rest.len() as int)
                    =~= text@.subrange(at + pattern@.len(), text@.len() as int));
            }
            let ghost earlier = pieces@;
            pieces.push(copy_range(text, start, at));
            proof {
                assert(texts(pieces@) =~= texts(earlier) + seq![text@.subrange(start as int, at as int)]);
                assert(spec_split(rest, pattern@) == seq![text@.subrange(start as int, at as int)]
                    + spec_split(text@.subrange(at + pattern@.len(), text@.len() as int), pattern@));
                assert(spec_split(text@, pattern@) =~= texts(pieces@) + spec_split(
                    text@.subrange(at + pattern@.len(), text@.len() as int),
                    pattern@,
                ));
            }
            at = at + pattern.len();
            start = at;
        } else {
            proof {
                assert(!matches_at(rest, pattern@, at - start)) by {
                    if matches_at(rest, pattern@, at - start) {
                        assert(rest.subrange(at - start, at - start + pattern@.len())
                            =~= text@.subrange(at as int, at + pattern@.len()));
                    }
                }
            }
            at = at + 1;
        }
    }
    proof {
        let rest = text@.subrange(start as int, text@.len() as int);
        lemma_search_goes_on(rest, pattern@, 0, at - start);
        lemma_search_ends(rest, pattern@, at - start);
        assert(spec_split(rest, pattern@) == seq![rest]);
    }
    let ghost earlier = pieces@;
    pieces.push(copy_range(text, start, text.len()));
    proof {
        assert(texts(pieces@) =~= texts(earlier) + seq![
            text@.subrange(start as int, text@.len() as int),
        ]);
    }
    pieces
}

/// `text` without the bytes that are `dropped`.
pub fn without(text: &Vec<u8>, dropped: u8) -> (r: Vec<u8>)
    ensures
        r@ == spec_without(text@, dropped),
{
    let mut kept: Vec<u8> = Vec::new();
    let mut k: usize = 0;
    while k < text.len()
        invariant
            k <= text@.len(),
            kept@ == spec_without(text@.take(k as int), dropped),
        decreases text@.len() - k,
    {
        proof {
            assert(text@.take(k + 1).drop_last() =~= text@.take(k as int));
            reveal(Seq::filter);
        }
        if text[k] != dropped {
            kept.push(text[k]);
        }
        k = k + 1;
    }
    proof {
        assert(text@.take(text@.len() as int) =~= text@);
        reveal(Seq::filter);
    }
    kept
}

/// The fields of one record.
pub fn fields(record: &Vec<u8>) -> (r: Vec<Vec<u8>>)
    ensures
        texts(r@) == spec_fields(record@),
{
    let bare = without(&without(record, OPEN), CLOSE);
    let mut separator: Vec<u8> = Vec::new();
    separator.push(COMMA);
    assert(separator@ =~= field_separator());
    let raw = split(&bare, &separator);
    let mut cleaned: Vec<Vec<u8>> = Vec::new();
    let mut k: usize = 0;
    while k < raw.len()
        invariant
            k <= raw@.len(),
            cleaned@.len() == k,
            forall|p: int| 0 <= p < k ==> (#[trigger] cleaned@[p])@ == spec_without(raw@[p]@, BLANK),
        decreases raw@.len() - k,
    {
        cleaned.push(without(&raw[k], BLANK));
        k = k + 1;
    }
    proof {
        let expected = spec_fields(record@);
        assert(texts(raw@).len() == raw@.len());
        assert forall|p: int| 0 <= p < cleaned@.len() implies texts(cleaned@)[p] == expected[p] by {
            assert(texts(raw@)[p] == raw@[p]@);
        }
        assert(texts(cleaned@) =~= expected);
    }
    cleaned
}

/// The fields of every record of a text, each the text of one number.
pub fn number_fields(text: &Vec<u8>) -> (r: Vec<Vec<Vec<u8>>>)
    ensures
        field_texts(r@) == spec_number_fields(text@),
{
    let mut separator: Vec<u8> = Vec::new();
    separator.push(CLOSE);
    separator.push(COMMA);
    separator.push(OPEN);
    assert(separator@ =~= record_separator());
    let records = split(text, &separator);
    let mut all: Vec<Vec<Vec<u8>>> = Vec::new();
    let mut k: usize = 0;
    while k < records.len()
        invariant
            k <= records@.len(),
            all@.len() == k,
            forall|p: int| 0 <= p < k ==> texts((#[trigger] all@[p])@) == spec_fields(records@[p]@),
        decreases records@.len() - k,
    {
        all.push(fields(&records[k]));
        k = k + 1;
    }
    proof {
        let expected = spec_number_fields(text@);
        assert(texts(records@).len() == records@.len());
        assert forall|p: int| 0 <= p < all@.len() implies field_texts(all@)[p] == expected[p] by {
            assert(texts(records@)[p] == records@[p]@);
        }
        assert(field_texts(all@) =~= expected);
    }
    all
}

} // verus!
