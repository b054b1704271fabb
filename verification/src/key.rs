//! Storage keys: paths of segments that name one slot of storage.
//!
//! A key's text is its segments joined by `/`. A segment that starts with `#`
//! names an address, whose identifier follows the `#`; any other segment is
//! plain text. No segment is empty.

use vstd::prelude::*;
use crate::error::Error;
use crate::order::{bytes_lt, lex_lt, parts_at, rank_bytes, strict, total, Rank};
use crate::order::{byte_order, lemma_byte_order, lemma_lex_asymmetric, lemma_lex_irreflexive};
use crate::order::{lemma_lex_total, lemma_lex_transitive};
use crate::wire::{copy_range, put_bytes};

verus! {

/// The byte between two segments of a key's text: `/`.
pub const SEPARATOR: u8 = 47;

/// The byte in front of an address in a key's text: `#`.
pub const ADDRESS_MARK: u8 = 35;

/// Whether `b` is an ASCII letter or digit.
pub open spec fn is_alnum(b: u8) -> bool {
    ||| 48 <= b <= 57
    ||| 65 <= b <= 90
    ||| 97 <= b <= 122
}

/// Whether `raw` can identify an address: one or more ASCII letters and digits.
pub open spec fn valid_address(raw: Seq<u8>) -> bool {
    &&& raw.len() > 0
    &&& forall|i: int| 0 <= i < raw.len() ==> is_alnum(#[trigger] raw[i])
}

/// Whether `t` can be a plain segment: not empty, no `/`, and no `#` in front.
pub open spec fn valid_text(t: Seq<u8>) -> bool {
    &&& t.len() > 0
    &&& t[0] != ADDRESS_MARK
    &&& forall|i: int| 0 <= i < t.len() ==> #[trigger] t[i] != SEPARATOR
}

/// An opaque identifier of an account.
#[derive(Debug, PartialEq, Eq)]
pub struct Address {
    raw: Vec<u8>,
}

impl View for Address {
    type V = Seq<u8>;

    closed spec fn view(&self) -> Seq<u8> {
        self.raw@
    }
}

impl Address {
    /// The identifier is one that an address can have.
    #[verifier::type_invariant]
    spec fn well_formed(self) -> bool {
        valid_address(self.raw@)
    }

    /// The address that `raw` identifies, unless `raw` is empty or holds a
    /// byte that is no ASCII letter or digit.
    pub fn new(raw: &[u8]) -> (out: Option<Address>)
        ensures
            out is Some <==> valid_address(raw@),
            out matches Some(a) ==> a@ == raw@,
    {
        if raw.len() == 0 {
            return None;
        }
        let mut i: usize = 0;
        while i < raw.len()
            invariant
                i <= raw@.len(),
                forall|j: int| 0 <= j < i ==> is_alnum(#[trigger] raw@[j]),
            decreases raw@.len() - i,
        {
            let b: u8 = raw[i];
            let alnum: bool = (48 <= b && b <= 57) || (65 <= b && b <= 90) || (97 <= b && b
                <= 122);
            if !alnum {
                return None;
            }
            i = i + 1;
        }
        let copy: Vec<u8> = copy_range(raw, 0, raw.len());
        assert(copy@ =~= raw@);
        Some(Address { raw: copy })
    }

    /// The identifier's bytes.
    pub fn as_bytes(&self) -> (out: &[u8])
        ensures
            out@ == self@,
            valid_address(self@),
    {
        proof {
            use_type_invariant(self);
        }
        self.raw.as_slice()
    }

    /// Whether two addresses are the same.
    pub fn same(&self, other: &Address) -> (out: bool)
        ensures
            out == (self@ == other@),
    {
        match rank_bytes(self.raw.as_slice(), other.raw.as_slice()) {
            Rank::Same => true,
            _ => false,
        }
    }
}

impl Clone for Address {
    /// An equal address of its own.
    fn clone(&self) -> (out: Address)
        ensures
            out@ == self@,
            valid_address(out@),
    {
        proof {
            use_type_invariant(self);
        }
        let raw: Vec<u8> = copy_range(self.raw.as_slice(), 0, self.raw.len());
        assert(raw@ =~= self.raw@);
        Address { raw }
    }
}

/// One step of a key's path.
#[derive(Debug, PartialEq, Eq)]
pub enum Segment {
    /// The address of an account.
    Addr(Address),
    /// Plain text.
    Text(Vec<u8>),
}

/// A segment as contracts see it.
pub enum SegmentView {
    Addr(Seq<u8>),
    Text(Seq<u8>),
}

impl View for Segment {
    type V = SegmentView;

    open spec fn view(&self) -> SegmentView {
        match self {
            Segment::Addr(a) => SegmentView::Addr(a@),
            Segment::Text(t) => SegmentView::Text(t@),
        }
    }
}

impl SegmentView {
    /// Whether the segment can stand in a key.
    pub open spec fn wf(self) -> bool {
        match self {
            SegmentView::Addr(a) => valid_address(a),
            SegmentView::Text(t) => valid_text(t),
        }
    }

    /// The segment's part of a key's text.
    pub open spec fn raw(self) -> Seq<u8> {
        match self {
            SegmentView::Addr(a) => seq![ADDRESS_MARK] + a,
            SegmentView::Text(t) => t,
        }
    }
}

/// A key as contracts see it: its segments in order.
pub type KeyView = Seq<SegmentView>;

/// Whether `k` is the path of a key: one or more segments, each of them sound.
pub open spec fn key_wf(k: KeyView) -> bool {
    &&& k.len() > 0
    &&& forall|i: int| 0 <= i < k.len() ==> (#[trigger] k[i]).wf()
}

/// The parts of `t` between its separators. There is always at least one.
pub open spec fn split(t: Seq<u8>) -> Seq<Seq<u8>>
    decreases t.len(),
{
    if t.len() == 0 {
        seq![Seq::<u8>::empty()]
    } else {
        let init = split(t.drop_last());
        if t.last() == SEPARATOR {
            init.push(Seq::<u8>::empty())
        } else {
            init.update(init.len() - 1, init.last().push(t.last()))
        }
    }
}

/// The parts with a separator between each two.
pub open spec fn join(parts: Seq<Seq<u8>>) -> Seq<u8>
    decreases parts.len(),
{
    if parts.len() == 0 {
        Seq::<u8>::empty()
    } else if parts.len() == 1 {
        parts[0]
    } else {
        join(parts.drop_last()) + seq![SEPARATOR] + parts.last()
    }
}

/// The segment that one part of a key's text stands for. An empty part stands
/// for none, nor does a `#` that no address follows.
pub open spec fn classify(part: Seq<u8>) -> Option<SegmentView> {
    if part.len() == 0 {
        None
    } else if part[0] == ADDRESS_MARK {
        if valid_address(part.skip(1)) {
            Some(SegmentView::Addr(part.skip(1)))
        } else {
            None
        }
    } else {
        Some(SegmentView::Text(part))
    }
}

/// The key that `t` is the text of, if it is the text of one.
pub open spec fn parsed(t: Seq<u8>) -> Option<KeyView> {
    let parts = split(t);
    if forall|i: int| 0 <= i < parts.len() ==> (#[trigger] classify(parts[i])) is Some {
        Some(Seq::new(parts.len(), |i: int| classify(parts[i])->0))
    } else {
        None
    }
}

/// The part of the text that each segment of `k` gives.
pub open spec fn raws(k: KeyView) -> Seq<Seq<u8>> {
    Seq::new(k.len(), |i: int| k[i].raw())
}

/// The canonical text of `k`.
pub open spec fn text_of(k: KeyView) -> Seq<u8> {
    join(raws(k))
}

/// A text has at least one part, and no part holds a separator.
pub proof fn lemma_split_parts(t: Seq<u8>)
    ensures
        split(t).len() >= 1,
        forall|i: int, j: int|
            0 <= i < split(t).len() && 0 <= j < split(t)[i].len() ==> split(t)[i][j]
                != SEPARATOR,
    decreases t.len(),
{
    if t.len() > 0 {
        lemma_split_parts(t.drop_last());
    }
}

/// All parts of the start of a text but the last are parts of the whole text.
pub proof fn lemma_split_extends(t: Seq<u8>, n: int)
    requires
        0 <= n <= t.len(),
    ensures
        1 <= split(t.take(n)).len() <= split(t).len(),
        forall|j: int|
            0 <= j < split(t.take(n)).len() - 1 ==> split(t)[j] == split(t.take(n))[j],
    decreases t.len(),
{
    lemma_split_parts(t.take(n));
    if n == t.len() {
        assert(t.take(n) =~= t);
    } else {
        lemma_split_extends(t.drop_last(), n);
        lemma_split_parts(t.drop_last());
        assert(t.drop_last().take(n) =~= t.take(n));
    }
}

/// Joining the parts of a text gives the text back.
pub proof fn lemma_join_split(t: Seq<u8>)
    ensures
        join(split(t)) == t,
    decreases t.len(),
{
    if t.len() == 0 {
        assert(join(split(t)) =~= t);
    } else {
        let init = split(t.drop_last());
        lemma_join_split(t.drop_last());
        lemma_split_parts(t.drop_last());
        if t.last() == SEPARATOR {
            let all = init.push(Seq::<u8>::empty());
            assert(all.drop_last() =~= init);
            assert(join(all) =~= t);
        } else {
            let grown = init.last().push(t.last());
            let all = init.update(init.len() - 1, grown);
            if init.len() == 1 {
                assert(join(all) =~= t);
            } else {
                assert(all.drop_last() =~= init.drop_last());
                assert(join(init) == join(init.drop_last()) + seq![SEPARATOR] + init.last());
                assert(join(all) == join(init.drop_last()) + seq![SEPARATOR] + grown);
                assert(join(all) =~= t.drop_last().push(t.last()));
                assert(t.drop_last().push(t.last()) =~= t);
            }
        }
    }
}

/// A part that stands for a segment is that segment's part of the text, and
/// the segment is sound if the part holds no separator.
pub proof fn lemma_classify_raw(part: Seq<u8>)
    requires
        classify(part) is Some,
    ensures
        classify(part)->0.raw() == part,
        (forall|j: int| 0 <= j < part.len() ==> part[j] != SEPARATOR) ==> classify(part)->0.wf(),
{
    if part[0] == ADDRESS_MARK {
        assert(seq![ADDRESS_MARK] + part.skip(1) =~= part);
    }
}

/// The text of a key that was parsed is the text that was parsed, and the key
/// is sound.
pub proof fn lemma_text_of_parsed(t: Seq<u8>)
    requires
        parsed(t) is Some,
    ensures
        text_of(parsed(t)->0) == t,
        key_wf(parsed(t)->0),
{
    let parts = split(t);
    let k = parsed(t)->0;
    lemma_split_parts(t);
    assert forall|i: int| 0 <= i < parts.len() implies (#[trigger] raws(k)[i]) == parts[i]
        && k[i].wf() by {
        assert(classify(parts[i]) is Some);
        lemma_classify_raw(parts[i]);
    }
    assert(raws(k) =~= parts);
    lemma_join_split(t);
}

/// Whether no byte of `p` is a separator.
pub open spec fn plain(p: Seq<u8>) -> bool {
    forall|j: int| 0 <= j < p.len() ==> #[trigger] p[j] != SEPARATOR
}

/// A text without a separator is its own single part.
pub proof fn lemma_split_plain(p: Seq<u8>)
    requires
        plain(p),
    ensures
        split(p) == seq![p],
    decreases p.len(),
{
    if p.len() == 0 {
        assert(p =~= Seq::<u8>::empty());
    } else {
        lemma_split_plain(p.drop_last());
        assert(p.drop_last().push(p.last()) =~= p);
        assert(split(p) =~= seq![p]);
    }
}

/// A separator and a text without one add that text as a part of its own.
pub proof fn lemma_split_push(a: Seq<u8>, p: Seq<u8>)
    requires
        plain(p),
    ensures
        split(a + seq![SEPARATOR] + p) == split(a).push(p),
    decreases p.len(),
{
    let t = a + seq![SEPARATOR] + p;
    if p.len() == 0 {
        assert(t.drop_last() =~= a);
        assert(p =~= Seq::<u8>::empty());
    } else {
        let shorter = p.drop_last();
        lemma_split_push(a, shorter);
        assert(t.drop_last() =~= a + seq![SEPARATOR] + shorter);
        assert(shorter.push(p.last()) =~= p);
        assert(split(t) =~= split(a).push(p));
    }
}

/// Parts without a separator are the parts of what they are joined to.
pub proof fn lemma_split_join(parts: Seq<Seq<u8>>)
    requires
        parts.len() >= 1,
        forall|i: int| 0 <= i < parts.len() ==> plain(#[trigger] parts[i]),
    ensures
        split(join(parts)) == parts,
    decreases parts.len(),
{
    if parts.len() == 1 {
        lemma_split_plain(parts[0]);
        assert(seq![parts[0]] =~= parts);
    } else {
        let init = parts.drop_last();
        lemma_split_join(init);
        lemma_split_push(join(init), parts.last());
        assert(init.push(parts.last()) =~= parts);
    }
}

/// Parsing the text of a sound key gives the key back: every key has one text
/// and every text at most one key.
pub proof fn lemma_parsed_text_of(k: KeyView)
    requires
        key_wf(k),
    ensures
        parsed(text_of(k)) == Some(k),
{
    let parts = raws(k);
    assert forall|i: int| 0 <= i < parts.len() implies plain(#[trigger] parts[i]) && classify(
        parts[i],
    ) == Some(k[i]) by {
        assert(k[i].wf());
        match k[i] {
            SegmentView::Addr(a) => {
                assert(parts[i].skip(1) =~= a);
                assert forall|j: int| 0 <= j < parts[i].len() implies #[trigger] parts[i][j]
                    != SEPARATOR by {
                    if j > 0 {
                        assert(is_alnum(a[j - 1]));
                    }
                }
            },
            SegmentView::Text(t) => {},
        }
    }
    lemma_split_join(parts);
    assert(parsed(text_of(k))->0 =~= k);
}

/// Whether segment `a` comes before segment `b`: an address before plain
/// text, and two of a kind by their bytes.
pub open spec fn seg_lt(a: SegmentView, b: SegmentView) -> bool {
    match (a, b) {
        (SegmentView::Addr(x), SegmentView::Addr(y)) => bytes_lt(x, y),
        (SegmentView::Addr(_), SegmentView::Text(_)) => true,
        (SegmentView::Text(_), SegmentView::Addr(_)) => false,
        (SegmentView::Text(x), SegmentView::Text(y)) => bytes_lt(x, y),
    }
}

/// The order of segments.
pub open spec fn seg_order() -> spec_fn(SegmentView, SegmentView) -> bool {
    |a: SegmentView, b: SegmentView| seg_lt(a, b)
}

/// Where segment `a` stands to segment `b`.
pub open spec fn seg_rank(a: SegmentView, b: SegmentView) -> Rank {
    if seg_lt(a, b) {
        Rank::Before
    } else if a == b {
        Rank::Same
    } else {
        Rank::After
    }
}

/// Whether key `a` comes before key `b`: segment by segment, and a key before
/// every key that it is a proper start of.
pub open spec fn key_lt(a: KeyView, b: KeyView) -> bool {
    lex_lt(seg_order(), a, b)
}

/// Where key `a` stands to key `b`.
pub open spec fn key_rank(a: KeyView, b: KeyView) -> Rank {
    if key_lt(a, b) {
        Rank::Before
    } else if a == b {
        Rank::Same
    } else {
        Rank::After
    }
}

/// The order of segments is strict and total.
pub proof fn lemma_seg_order()
    ensures
        strict(seg_order()),
        total(seg_order()),
{
    lemma_byte_order();
    let lt = seg_order();
    assert forall|x: SegmentView| !#[trigger] lt(x, x) by {
        match x {
            SegmentView::Addr(a) => lemma_lex_irreflexive(byte_order(), a),
            SegmentView::Text(t) => lemma_lex_irreflexive(byte_order(), t),
        }
    }
    assert forall|x: SegmentView, y: SegmentView, z: SegmentView| #[trigger]
        lt(x, y) && #[trigger] lt(y, z) implies lt(x, z) by {
        match (x, y, z) {
            (SegmentView::Addr(a), SegmentView::Addr(b), SegmentView::Addr(c)) => {
                lemma_lex_transitive(byte_order(), a, b, c);
            },
            (SegmentView::Text(a), SegmentView::Text(b), SegmentView::Text(c)) => {
                lemma_lex_transitive(byte_order(), a, b, c);
            },
            _ => {},
        }
    }
    assert forall|x: SegmentView, y: SegmentView|
        #![trigger lt(x, y)]
        #![trigger lt(y, x)]
        lt(x, y) || x == y || lt(y, x) by {
        match (x, y) {
            (SegmentView::Addr(a), SegmentView::Addr(b)) => {
                lemma_lex_total(byte_order(), a, b);
            },
            (SegmentView::Text(a), SegmentView::Text(b)) => {
                lemma_lex_total(byte_order(), a, b);
            },
            _ => {},
        }
    }
}

/// No key comes before itself, and of two keys at most one comes before the other.
pub proof fn lemma_key_lt_asymmetric(a: KeyView, b: KeyView)
    requires
        key_lt(a, b),
    ensures
        !key_lt(b, a),
        a != b,
{
    lemma_seg_order();
    lemma_lex_asymmetric(seg_order(), a, b);
}

/// A key that comes before one that comes before a third comes before the third.
pub proof fn lemma_key_lt_transitive(a: KeyView, b: KeyView, c: KeyView)
    requires
        key_lt(a, b),
        key_lt(b, c),
    ensures
        key_lt(a, c),
{
    lemma_seg_order();
    lemma_lex_transitive(seg_order(), a, b, c);
}

/// Of two different keys one comes before the other.
pub proof fn lemma_key_lt_total(a: KeyView, b: KeyView)
    ensures
        key_lt(a, b) || a == b || key_lt(b, a),
{
    lemma_seg_order();
    lemma_lex_total(seg_order(), a, b);
}

/// The segment that `part` stands for.
fn classify_part(part: Vec<u8>) -> (out: Option<Segment>)
    ensures
        match classify(part@) {
            Some(s) => out is Some && out->0@ == s,
            None => out is None,
        },
{
    if part.len() == 0 {
        return None;
    }
    if part[0] == ADDRESS_MARK {
        let raw: Vec<u8> = copy_range(part.as_slice(), 1, part.len());
        assert(raw@ =~= part@.skip(1));
        match Address::new(raw.as_slice()) {
            Some(a) => Some(Segment::Addr(a)),
            None => None,
        }
    } else {
        Some(Segment::Text(part))
    }
}

/// Compares two segments.
pub fn rank_segments(a: &Segment, b: &Segment) -> (r: Rank)
    ensures
        r == seg_rank(a@, b@),
        r == Rank::After ==> seg_lt(b@, a@),
{
    match (a, b) {
        (Segment::Addr(x), Segment::Addr(y)) => rank_bytes(x.as_bytes(), y.as_bytes()),
        (Segment::Addr(_), Segment::Text(_)) => Rank::Before,
        (Segment::Text(_), Segment::Addr(_)) => Rank::After,
        (Segment::Text(x), Segment::Text(y)) => rank_bytes(x.as_slice(), y.as_slice()),
    }
}

impl Segment {
    /// An equal segment of its own.
    pub fn copy(&self) -> (out: Segment)
        ensures
            out@ == self@,
    {
        match self {
            Segment::Addr(a) => Segment::Addr(a.clone()),
            Segment::Text(t) => {
                let bytes: Vec<u8> = copy_range(t.as_slice(), 0, t.len());
                assert(bytes@ =~= t@);
                Segment::Text(bytes)
            },
        }
    }

    /// Whether the segment can stand in a key.
    pub fn is_sound(&self) -> (out: bool)
        ensures
            out == self@.wf(),
    {
        match self {
            Segment::Addr(a) => {
                proof {
                    use_type_invariant(a);
                }
                true
            },
            Segment::Text(t) => {
                if t.len() == 0 || t[0] == ADDRESS_MARK {
                    return false;
                }
                let mut i: usize = 0;
                while i < t.len()
                    invariant
                        i <= t@.len(),
                        self@ == SegmentView::Text(t@),
                        forall|j: int| 0 <= j < i ==> #[trigger] t@[j] != SEPARATOR,
                    decreases t@.len() - i,
                {
                    if t[i] == SEPARATOR {
                        assert(t@[i as int] == SEPARATOR);
                        return false;
                    }
                    i = i + 1;
                }
                true
            },
        }
    }
}

/// The name of one slot of storage.
#[derive(Debug, PartialEq, Eq)]
pub struct Key {
    segments: Vec<Segment>,
}

impl View for Key {
    type V = KeyView;

    closed spec fn view(&self) -> KeyView {
        Seq::new(self.segments@.len(), |i: int| self.segments@[i]@)
    }
}

impl Key {
    /// The segments are those of a key.
    #[verifier::type_invariant]
    spec fn well_formed(self) -> bool {
        key_wf(self@)
    }

    /// The key whose text is `text`. A text with an empty segment, or with a
    /// `#` that no address follows, is the text of no key.
    pub fn parse(text: &[u8]) -> (out: Result<Key, Error>)
        ensures
            match parsed(text@) {
                Some(k) => out is Ok && out->Ok_0@ == k,
                None => out == Err::<Key, Error>(Error::InvalidKeyFormat),
            },
    {
        let mut segments: Vec<Segment> = Vec::new();
        let mut current: Vec<u8> = Vec::new();
        let ghost mut done: Seq<Seq<u8>> = Seq::empty();
        let mut i: usize = 0;
        assert(text@.take(0) =~= Seq::<u8>::empty());
        assert(split(text@.take(0)) =~= done.push(current@));
        while i < text.len()
            invariant
                i <= text@.len(),
                split(text@.take(i as int)) == done.push(current@),
                segments@.len() == done.len(),
                forall|j: int|
                    0 <= j < done.len() ==> classify(#[trigger] done[j]) == Some(segments@[j]@),
                forall|j: int| 0 <= j < done.len() ==> (#[trigger] segments@[j]@).wf(),
            decreases text@.len() - i,
        {
            let b: u8 = text[i];
            let ghost before = text@.take(i as int);
            let ghost now = text@.take(i + 1);
            proof {
                assert(now.drop_last() =~= before);
                lemma_split_parts(before);
                lemma_split_extends(text@, i + 1);
            }
            if b == SEPARATOR {
                let ghost part = current@;
                assert(split(now) =~= done.push(part).push(Seq::<u8>::empty()));
                assert(split(text@)[done.len() as int] == part);
                proof {
                    assert(split(before)[done.len() as int] == part);
                    if classify(part) is Some {
                        lemma_classify_raw(part);
                    }
                }
                match classify_part(current) {
                    Some(segment) => {
                        segments.push(segment);
                    },
                    None => {
                        return Err(Error::InvalidKeyFormat);
                    },
                }
                proof {
                    done = done.push(part);
                }
                current = Vec::new();
            } else {
                current.push(b);
                assert(split(now) =~= done.push(current@));
            }
            i = i + 1;
        }
        let ghost part = current@;
        proof {
            assert(text@.take(i as int) =~= text@);
            lemma_split_parts(text@);
            assert(split(text@)[done.len() as int] == part);
            if classify(part) is Some {
                lemma_classify_raw(part);
            }
        }
        match classify_part(current) {
            Some(segment) => {
                segments.push(segment);
            },
            None => {
                return Err(Error::InvalidKeyFormat);
            },
        }
        let key = Key { segments };
        proof {
            let parts = split(text@);
            assert forall|j: int| 0 <= j < parts.len() implies (#[trigger] classify(parts[j]))
                == Some(key@[j]) by {
                if j < done.len() {
                    assert(parts[j] == done[j]);
                }
            }
            assert(key@ =~= parsed(text@)->0);
        }
        Ok(key)
    }

    /// The key with the given segments, unless there is none or one of them
    /// cannot stand in a key.
    pub fn from_segments(segments: Vec<Segment>) -> (out: Result<Key, Error>)
        ensures
            match out {
                Ok(k) => k@ == Seq::new(segments@.len(), |i: int| segments@[i]@) && key_wf(k@),
                Err(e) => e == Error::InvalidKeyFormat && !key_wf(
                    Seq::new(segments@.len(), |i: int| segments@[i]@),
                ),
            },
    {
        let ghost view = Seq::new(segments@.len(), |i: int| segments@[i]@);
        if segments.len() == 0 {
            return Err(Error::InvalidKeyFormat);
        }
        let mut i: usize = 0;
        while i < segments.len()
            invariant
                i <= segments@.len(),
                view == Seq::new(segments@.len(), |i: int| segments@[i]@),
                forall|j: int| 0 <= j < i ==> (#[trigger] view[j]).wf(),
            decreases segments@.len() - i,
        {
            if !segments[i].is_sound() {
                assert(!view[i as int].wf());
                return Err(Error::InvalidKeyFormat);
            }
            i = i + 1;
        }
        let key = Key { segments };
        assert(key@ =~= view);
        Ok(key)
    }

    /// The key's canonical text.
    pub fn to_text(&self) -> (out: Vec<u8>)
        ensures
            out@ == text_of(self@),
            parsed(out@) == Some(self@),
    {
        let mut out: Vec<u8> = Vec::new();
        let mut i: usize = 0;
        let ghost parts = raws(self@);
        assert(parts.take(0) =~= Seq::<Seq<u8>>::empty());
        while i < self.segments.len()
            invariant
                i <= self.segments@.len(),
                parts == raws(self@),
                parts.len() == self.segments@.len(),
                out@ == join(parts.take(i as int)),
            decreases self.segments@.len() - i,
        {
            let ghost so_far = out@;
            if i > 0 {
                out.push(SEPARATOR);
            }
            match &self.segments[i] {
                Segment::Addr(a) => {
                    out.push(ADDRESS_MARK);
                    put_bytes(&mut out, a.as_bytes());
                },
                Segment::Text(t) => {
                    put_bytes(&mut out, t.as_slice());
                },
            }
            proof {
                let upto = parts.take(i + 1);
                assert(upto.drop_last() =~= parts.take(i as int));
                assert(upto.last() == self@[i as int].raw());
                if i == 0 {
                    assert(out@ =~= upto[0]);
                } else {
                    assert(out@ =~= so_far + seq![SEPARATOR] + upto.last());
                }
            }
            i = i + 1;
        }
        proof {
            assert(parts.take(i as int) =~= parts);
            use_type_invariant(self);
            lemma_parsed_text_of(self@);
        }
        out
    }

    /// Where this key stands to `other` in the order of keys.
    pub fn rank(&self, other: &Key) -> (r: Rank)
        ensures
            r == key_rank(self@, other@),
            r == Rank::After ==> key_lt(other@, self@),
    {
        let mut i: usize = 0;
        proof {
            lemma_seg_order();
        }
        while i < self.segments.len() && i < other.segments.len()
            invariant
                i <= self.segments@.len(),
                i <= other.segments@.len(),
                forall|j: int| 0 <= j < i ==> self@[j] == other@[j],
                strict(seg_order()),
            decreases self.segments@.len() - i,
        {
            match rank_segments(&self.segments[i], &other.segments[i]) {
                Rank::Before => {
                    assert(parts_at(seg_order(), self@, other@, i as int));
                    return Rank::Before;
                },
                Rank::After => {
                    assert(parts_at(seg_order(), other@, self@, i as int));
                    proof {
                        lemma_lex_asymmetric(seg_order(), other@, self@);
                    }
                    return Rank::After;
                },
                Rank::Same => {},
            }
            i = i + 1;
        }
        if i < other.segments.len() {
            assert(parts_at(seg_order(), self@, other@, i as int));
            Rank::Before
        } else if i < self.segments.len() {
            assert(parts_at(seg_order(), other@, self@, i as int));
            proof {
                lemma_lex_asymmetric(seg_order(), other@, self@);
            }
            Rank::After
        } else {
            assert(self@ =~= other@);
            proof {
                lemma_lex_irreflexive(seg_order(), self@);
            }
            Rank::Same
        }
    }

    /// Whether two keys are the same.
    pub fn same(&self, other: &Key) -> (out: bool)
        ensures
            out == (self@ == other@),
    {
        match self.rank(other) {
            Rank::Same => true,
            _ => false,
        }
    }

    /// The number of segments.
    pub fn len(&self) -> (n: usize)
        ensures
            n == self@.len(),
            n > 0,
    {
        proof {
            use_type_invariant(self);
        }
        self.segments.len()
    }

    /// The segment at place `i`.
    pub fn segment(&self, i: usize) -> (out: &Segment)
        requires
            i < self@.len(),
        ensures
            out@ == self@[i as int],
            out@.wf(),
    {
        proof {
            use_type_invariant(self);
            assert(self@[i as int].wf());
        }
        &self.segments[i]
    }
}

impl Clone for Key {
    /// An equal key of its own.
    fn clone(&self) -> (out: Key)
        ensures
            out@ == self@,
    {
        let mut segments: Vec<Segment> = Vec::new();
        let mut i: usize = 0;
        while i < self.segments.len()
            invariant
                i <= self.segments@.len(),
                segments@.len() == i,
                forall|j: int| 0 <= j < i ==> (#[trigger] segments@[j])@ == self@[j],
            decreases self.segments@.len() - i,
        {
            segments.push(self.segments[i].copy());
            i = i + 1;
        }
        proof {
            use_type_invariant(self);
            assert(Seq::new(segments@.len(), |i: int| segments@[i]@) =~= self@);
        }
        Key { segments }
    }
}

} // verus!
