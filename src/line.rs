use vstd::prelude::*;
use vstd::string::*;
use std::cmp::Ordering;
use crate::text::{int_text, lemma_parse_int_text, parse_i32, parse_i32_spec};

verus! {

/// One text line reported by the character recognition service: the top-left
/// corner and size of its bounding box, and the text gathered from its words.
pub struct InterpretedLine {
    pub x: i32,
    pub y: i32,
    pub width: i32,
    pub height: i32,
    pub text: String,
}

/// What a line holds: its box and its text.
pub struct LineView {
    pub x: i32,
    pub y: i32,
    pub width: i32,
    pub height: i32,
    pub text: Seq<char>,
}

impl View for InterpretedLine {
    type V = LineView;

    open spec fn view(&self) -> LineView {
        LineView { x: self.x, y: self.y, width: self.width, height: self.height, text: self.text@ }
    }
}

/// Two lines at the same place: equal `x` and equal `y`. Nothing else is compared.
pub open spec fn same_position(a: LineView, b: LineView) -> bool {
    a.x == b.x && a.y == b.y
}

/// Reading order: by `y` (top first), then by `x` (left first).
pub open spec fn compare_spec(a: LineView, b: LineView) -> Ordering {
    if a.y < b.y {
        Ordering::Less
    } else if a.y > b.y {
        Ordering::Greater
    } else if a.x < b.x {
        Ordering::Less
    } else if a.x > b.x {
        Ordering::Greater
    } else {
        Ordering::Equal
    }
}

/// `a` comes no later than `b` in reading order.
pub open spec fn reads_no_later(a: LineView, b: LineView) -> bool {
    a.y < b.y || (a.y == b.y && a.x <= b.x)
}

impl InterpretedLine {
    /// A line with the given box and no text yet.
    pub fn new(x: i32, y: i32, width: i32, height: i32) -> (r: Self)
        ensures
            r.x == x,
            r.y == y,
            r.width == width,
            r.height == height,
            r.text@ == Seq::<char>::empty(),
    {
        InterpretedLine { x, y, width, height, text: String::new() }
    }

    /// Reading order of two lines: by `y`, then by `x`; `Equal` only at the same place.
    pub fn cmp(&self, other: &Self) -> (r: Ordering)
        ensures
            r == compare_spec(self@, other@),
    {
        if self.y > other.y {
            Ordering::Greater
        } else if self.y < other.y {
            Ordering::Less
        } else if self.x > other.x {
            Ordering::Greater
        } else if self.x < other.x {
            Ordering::Less
        } else {
            Ordering::Equal
        }
    }

    /// Reads a bounding box written `x,y,width,height` into a line with no text:
    /// an error unless `s` is exactly four comma-separated integers.
    pub fn parse_bounding_box(s: &str) -> (r: Result<InterpretedLine, ParseError>)
        ensures
            match r {
                Ok(line) => bounding_box_spec(s@) == Some((line.x, line.y, line.width, line.height))
                    && line.text@ == Seq::<char>::empty(),
                Err(_) => bounding_box_spec(s@) is None,
            },
    {
        let commas = comma_positions(s);
        proof {
            assert(s@.subrange(0, s@.len() as int) =~= s@);
        }
        if commas.len() != 3 {
            return Err(ParseError);
        }
        let n = s.unicode_len();
        let ghost pieces = split_on_comma(s@.subrange(0, n as int));
        proof {
            assert(s@.subrange(0, n as int) =~= s@);
            assert(commas@[0] < commas@[1]);
            assert(commas@[1] < commas@[2]);
            assert(commas@[2] < n);
        }
        let x = parse_i32(s.substring_char(0, commas[0]));
        let y = parse_i32(s.substring_char(commas[0] + 1, commas[1]));
        let width = parse_i32(s.substring_char(commas[1] + 1, commas[2]));
        let height = parse_i32(s.substring_char(commas[2] + 1, n));
        proof {
            assert(pieces[0] == s@.subrange(piece_start(commas@, 0), piece_end(commas@, 0, n as int)));
            assert(pieces[1] == s@.subrange(piece_start(commas@, 1), piece_end(commas@, 1, n as int)));
            assert(pieces[2] == s@.subrange(piece_start(commas@, 2), piece_end(commas@, 2, n as int)));
            assert(pieces[3] == s@.subrange(piece_start(commas@, 3), piece_end(commas@, 3, n as int)));
        }
        match (x, y, width, height) {
            (Some(x), Some(y), Some(width), Some(height)) => Ok(InterpretedLine::new(x, y, width, height)),
            _ => Err(ParseError),
        }
    }
}

/// The pieces of `s` between its commas, in order, as `str::split(',')` yields them:
/// one more piece than there are commas, any of them possibly empty.
pub open spec fn split_on_comma(s: Seq<char>) -> Seq<Seq<char>>
    decreases s.len(),
{
    if s.len() == 0 {
        seq![Seq::empty()]
    } else {
        let pieces = split_on_comma(s.drop_last());
        if s.last() == ',' {
            pieces.push(Seq::empty())
        } else {
            pieces.update(pieces.len() - 1, pieces.last().push(s.last()))
        }
    }
}

/// The box that `s` describes, `x,y,width,height`: exactly four comma-separated
/// pieces, each a signed decimal integer that fits in an `i32`.
pub open spec fn bounding_box_spec(s: Seq<char>) -> Option<(i32, i32, i32, i32)> {
    let f = split_on_comma(s);
    if f.len() == 4 && parse_i32_spec(f[0]) is Some && parse_i32_spec(f[1]) is Some
        && parse_i32_spec(f[2]) is Some && parse_i32_spec(f[3]) is Some {
        Some(
            (
                parse_i32_spec(f[0])->0,
                parse_i32_spec(f[1])->0,
                parse_i32_spec(f[2])->0,
                parse_i32_spec(f[3])->0,
            ),
        )
    } else {
        None
    }
}

/// Where piece `k` starts, given the positions of the commas.
pub open spec fn piece_start(commas: Seq<usize>, k: int) -> int {
    if k == 0 {
        0
    } else {
        commas[k - 1] + 1
    }
}

/// Where piece `k` ends, given the positions of the commas and the length read.
pub open spec fn piece_end(commas: Seq<usize>, k: int, len: int) -> int {
    if k < commas.len() {
        commas[k] as int
    } else {
        len
    }
}

/// Commas at the positions `commas`, in increasing order, and the pieces of the
/// first `len` characters of `s` lying between them.
pub open spec fn commas_split(s: Seq<char>, commas: Seq<usize>, len: int) -> bool {
    let pieces = split_on_comma(s.subrange(0, len));
    &&& pieces.len() == commas.len() + 1
    &&& forall|k: int| 0 <= k < commas.len() ==> #[trigger] commas[k] < len && s[commas[k] as int] == ','
    &&& forall|k: int| 0 < k < commas.len() ==> commas[k - 1] < #[trigger] commas[k]
    &&& forall|k: int|
        0 <= k < pieces.len() ==> #[trigger] pieces[k] == s.subrange(
            piece_start(commas, k),
            piece_end(commas, k, len),
        )
}

impl PartialEq for InterpretedLine {
    fn eq(&self, other: &Self) -> (r: bool) {
        self.x == other.x && self.y == other.y
    }
}

impl vstd::std_specs::cmp::PartialEqSpecImpl for InterpretedLine {
    open spec fn obeys_eq_spec() -> bool {
        true
    }

    open spec fn eq_spec(&self, other: &Self) -> bool {
        same_position(self@, other@)
    }
}

impl Eq for InterpretedLine {

}

impl PartialOrd for InterpretedLine {
    fn partial_cmp(&self, other: &Self) -> (r: Option<Ordering>) {
        Some(self.cmp(other))
    }
}

impl vstd::std_specs::cmp::PartialOrdSpecImpl for InterpretedLine {
    open spec fn obeys_partial_cmp_spec() -> bool {
        true
    }

    open spec fn partial_cmp_spec(&self, other: &Self) -> Option<Ordering> {
        Some(compare_spec(self@, other@))
    }
}

impl std::str::FromStr for InterpretedLine {
    type Err = ParseError;

    /// Reads a bounding box, as `parse_bounding_box` does.
    fn from_str(s: &str) -> (r: Result<Self, ParseError>)
        ensures
            match r {
                Ok(line) => bounding_box_spec(s@) == Some((line.x, line.y, line.width, line.height))
                    && line.text@ == Seq::<char>::empty(),
                Err(_) => bounding_box_spec(s@) is None,
            },
    {
        InterpretedLine::parse_bounding_box(s)
    }
}

/// The error of a bounding box that is not four comma-separated integers.
#[derive(Debug, Clone, Copy, PartialEq, Eq)]
pub struct ParseError;

/// The positions of the commas in `s`.
fn comma_positions(s: &str) -> (r: Vec<usize>)
    ensures
        commas_split(s@, r@, s@.len() as int),
{
    let n = s.unicode_len();
    let mut commas: Vec<usize> = Vec::new();
    let mut i: usize = 0;
    proof {
        assert(s@.subrange(0, 0) =~= Seq::<char>::empty());
    }
    while i < n
        invariant
            n == s@.len(),
            i <= n,
            commas_split(s@, commas@, i as int),
        decreases n - i,
    {
        let c = s.get_char(i);
        let ghost old_commas = commas@;
        let ghost pre = s@.subrange(0, i as int);
        let ghost next = s@.subrange(0, i + 1);
        proof {
            assert(next.drop_last() =~= pre);
            assert(next.last() == c);
        }
        let ghost pieces = split_on_comma(pre);
        if c == ',' {
            commas.push(i);
            proof {
                let np = split_on_comma(next);
                assert(np == pieces.push(Seq::empty()));
                assert forall|k: int| 0 <= k < np.len() implies #[trigger] np[k] == s@.subrange(
                    piece_start(commas@, k),
                    piece_end(commas@, k, i + 1),
                ) by {
                    if k < pieces.len() {
                        assert(piece_start(commas@, k) == piece_start(old_commas, k));
                        assert(piece_end(commas@, k, i + 1) == piece_end(old_commas, k, i as int));
                    } else {
                        assert(s@.subrange(i + 1, i + 1) =~= Seq::<char>::empty());
                    }
                }
                assert forall|k: int| 0 <= k < commas@.len() implies #[trigger] commas@[k] < i + 1
                    && s@[commas@[k] as int] == ',' by {
                    if k < old_commas.len() {
                        assert(commas@[k] == old_commas[k]);
                    }
                }
                assert forall|k: int| 0 < k < commas@.len() implies commas@[k - 1]
                    < #[trigger] commas@[k] by {
                    if k < old_commas.len() {
                        assert(commas@[k] == old_commas[k]);
                    }
                    assert(commas@[k - 1] == old_commas[k - 1]);
                }
            }
        } else {
            proof {
                let np = split_on_comma(next);
                let last = pieces.len() - 1;
                assert(np == pieces.update(last, pieces.last().push(c)));
                assert forall|k: int| 0 <= k < np.len() implies #[trigger] np[k] == s@.subrange(
                    piece_start(commas@, k),
                    piece_end(commas@, k, i + 1),
                ) by {
                    if k == last {
                        assert(pieces[k] == s@.subrange(piece_start(commas@, k), i as int));
                        assert(s@.subrange(piece_start(commas@, k), i + 1) =~= s@.subrange(
                            piece_start(commas@, k),
                            i as int,
                        ).push(c));
                    } else {
                        assert(pieces[k] == s@.subrange(
                            piece_start(commas@, k),
                            piece_end(commas@, k, i as int),
                        ));
                    }
                }
            }
        }
        i = i + 1;
    }
    proof {
        assert(s@.subrange(0, n as int) =~= s@);
    }
    commas
}

/// Text with no comma is one piece.
proof fn lemma_split_no_comma(t: Seq<char>)
    requires
        !t.contains(','),
    ensures
        split_on_comma(t) == seq![t],
    decreases t.len(),
{
    if t.len() > 0 {
        let u = t.drop_last();
        assert(!u.contains(',')) by {
            if u.contains(',') {
                let k = choose|k: int| 0 <= k < u.len() && u[k] == ',';
                assert(t[k] == ',');
            }
        }
        lemma_split_no_comma(u);
        assert(t.last() != ',');
        assert(u.push(t.last()) =~= t);
        assert(seq![u].update(0, u.push(t.last())) =~= seq![t]);
    } else {
        assert(t =~= Seq::<char>::empty());
    }
}

/// A comma and text with no comma, after `s`, add that text as one more piece.
proof fn lemma_split_append_piece(s: Seq<char>, t: Seq<char>)
    requires
        !t.contains(','),
    ensures
        split_on_comma(s + seq![','] + t) == split_on_comma(s).push(t),
    decreases t.len(),
{
    let u = s + seq![','] + t;
    if t.len() == 0 {
        assert(u.drop_last() =~= s);
        assert(t =~= Seq::<char>::empty());
    } else {
        let t0 = t.drop_last();
        assert(!t0.contains(',')) by {
            if t0.contains(',') {
                let k = choose|k: int| 0 <= k < t0.len() && t0[k] == ',';
                assert(t[k] == ',');
            }
        }
        lemma_split_append_piece(s, t0);
        assert(u.drop_last() =~= s + seq![','] + t0);
        assert(u.last() == t.last());
        assert(t.last() != ',');
        assert(t0.push(t.last()) =~= t);
        assert(split_on_comma(s).push(t0).update(split_on_comma(s).len() as int, t) =~= split_on_comma(s).push(t));
    }
}

/// An integer written in decimal holds no comma.
proof fn lemma_int_text_no_comma(v: int)
    ensures
        !int_text(v).contains(','),
{
    let s = int_text(v);
    if s.contains(',') {
        let k = choose|k: int| 0 <= k < s.len() && s[k] == ',';
        crate::text::lemma_int_text_digits(v, k);
    }
}

/// Four `i32` values written in decimal and joined by commas read back as the box
/// they give, `x,y,width,height`.
pub proof fn lemma_bounding_box_round_trip(x: i32, y: i32, width: i32, height: i32)
    ensures
        bounding_box_spec(
            int_text(x as int) + seq![','] + int_text(y as int) + seq![','] + int_text(width as int)
                + seq![','] + int_text(height as int),
        ) == Some((x, y, width, height)),
{
    let a = int_text(x as int);
    let b = int_text(y as int);
    let c = int_text(width as int);
    let d = int_text(height as int);
    lemma_int_text_no_comma(x as int);
    lemma_int_text_no_comma(y as int);
    lemma_int_text_no_comma(width as int);
    lemma_int_text_no_comma(height as int);
    lemma_split_no_comma(a);
    lemma_split_append_piece(a, b);
    lemma_split_append_piece(a + seq![','] + b, c);
    lemma_split_append_piece(a + seq![','] + b + seq![','] + c, d);
    let f = split_on_comma(a + seq![','] + b + seq![','] + c + seq![','] + d);
    assert(f =~= seq![a, b, c, d]);
    lemma_parse_int_text(x);
    lemma_parse_int_text(y);
    lemma_parse_int_text(width);
    lemma_parse_int_text(height);
}

} // verus!
