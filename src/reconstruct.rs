use vstd::prelude::*;
use std::cmp::Ordering;
use vstd::string::*;
use vstd::set_lib::{lemma_int_range, lemma_len_subset, set_int_range};
use crate::line::{InterpretedLine, LineView, ParseError, bounding_box_spec, reads_no_later, same_position};
use crate::text::{trim, trimmed};

verus! {

/// What each line of `lines` holds.
pub open spec fn views(lines: Seq<InterpretedLine>) -> Seq<LineView> {
    lines.map_values(|l: InterpretedLine| l@)
}

/// Each line reads no later than the one after it.
pub open spec fn in_reading_order(s: Seq<LineView>) -> bool {
    forall|i: int| 0 <= i < s.len() - 1 ==> reads_no_later(#[trigger] s[i], s[i + 1])
}

/// `out` holds the lines of `inp`, the one at `out[i]` taken from `inp[perm[i]]`, each
/// exactly once, and lines at the same place stand in `out` in their order in `inp`.
pub open spec fn is_stable_rearrangement(out: Seq<LineView>, inp: Seq<LineView>, perm: Seq<int>) -> bool {
    &&& out.len() == inp.len()
    &&& perm.len() == out.len()
    &&& forall|i: int| 0 <= i < out.len() ==> 0 <= #[trigger] perm[i] < inp.len() && out[i] == inp[perm[i]]
    &&& forall|i: int, j: int| 0 <= i < j < out.len() ==> #[trigger] perm[i] != #[trigger] perm[j]
    &&& forall|i: int, j: int|
        0 <= i < j < out.len() && same_position(#[trigger] out[i], #[trigger] out[j]) ==> perm[i] < perm[j]
}

/// `out` is `inp` sorted into reading order by a stable sort.
pub open spec fn is_stable_sort_of(out: Seq<LineView>, inp: Seq<LineView>) -> bool {
    &&& in_reading_order(out)
    &&& exists|perm: Seq<int>| is_stable_rearrangement(out, inp, perm)
}

/// Position in the sequence before moving the item at `from` to `to` (with `to <= from`)
/// of the item that stands at `k` after it.
spec fn moved_from(k: int, from: int, to: int) -> int {
    if k < to {
        k
    } else if k == to {
        from
    } else if k <= from {
        k - 1
    } else {
        k
    }
}

/// `a` comes strictly after `b` in reading order.
fn reads_after(a: &InterpretedLine, b: &InterpretedLine) -> (r: bool)
    ensures
        r == !reads_no_later(a@, b@),
{
    match a.cmp(b) {
        Ordering::Greater => true,
        _ => false,
    }
}

/// Sorts the lines into reading order (top to bottom, then left to right), keeping
/// lines at the same place in the order they came in.
pub fn sort_lines(lines: &mut Vec<InterpretedLine>)
    ensures
        is_stable_sort_of(views(final(lines)@), views(old(lines)@)),
        forall|a: int, b: int|
            0 <= a < b < final(lines)@.len() ==> reads_no_later(#[trigger] final(lines)@[a]@, #[trigger] final(lines)@[b]@),
{
    let n = lines.len();
    let ghost orig = views(lines@);
    let ghost mut perm: Seq<int> = Seq::new(n as nat, |k: int| k);
    let mut i: usize = 0;
    while i < n
        invariant
            lines@.len() == n,
            orig.len() == n,
            perm.len() == n,
            i <= n,
            forall|k: int| 0 <= k < n ==> 0 <= #[trigger] perm[k] < n && views(lines@)[k] == orig[perm[k]],
            forall|k: int| i <= k < n ==> #[trigger] perm[k] == k,
            forall|k: int| 0 <= k < i ==> #[trigger] perm[k] < i,
            forall|a: int, b: int| 0 <= a < b < n ==> #[trigger] perm[a] != #[trigger] perm[b],
            forall|a: int, b: int|
                0 <= a < b < i ==> reads_no_later(#[trigger] views(lines@)[a], #[trigger] views(lines@)[b]),
            forall|a: int, b: int|
                0 <= a < b < i && same_position(#[trigger] views(lines@)[a], #[trigger] views(lines@)[b])
                    ==> perm[a] < perm[b],
        decreases n - i,
    {
        let mut j: usize = i;
        while j > 0 && reads_after(&lines[j - 1], &lines[i])
            invariant
                lines@.len() == n,
                i < n,
                j <= i,
                forall|k: int| j <= k < i ==> !reads_no_later(#[trigger] lines@[k]@, lines@[i as int]@),
            decreases j,
        {
            j = j - 1;
        }
        let ghost before = views(lines@);
        let ghost old_perm = perm;
        let item = lines.remove(i);
        lines.insert(j, item);
        proof {
            perm = old_perm.remove(i as int).insert(j as int, old_perm[i as int]);
            let after = views(lines@);
            assert forall|k: int| 0 <= k < n implies after[k] == before[moved_from(k, i as int, j as int)]
                && #[trigger] perm[k] == old_perm[moved_from(k, i as int, j as int)] by {
            }
            assert forall|k: int| 0 <= k < n implies 0 <= #[trigger] perm[k] < n && after[k] == orig[perm[k]] by {
                assert(perm[k] == old_perm[moved_from(k, i as int, j as int)]);
            }
            assert forall|k: int| i + 1 <= k < n implies #[trigger] perm[k] == k by {
                assert(perm[k] == old_perm[moved_from(k, i as int, j as int)]);
            }
            assert forall|k: int| 0 <= k < i + 1 implies #[trigger] perm[k] < i + 1 by {
                assert(perm[k] == old_perm[moved_from(k, i as int, j as int)]);
            }
            assert forall|a: int, b: int| 0 <= a < b < n implies #[trigger] perm[a] != #[trigger] perm[b] by {
                assert(perm[a] == old_perm[moved_from(a, i as int, j as int)]);
                assert(perm[b] == old_perm[moved_from(b, i as int, j as int)]);
            }
            assert forall|a: int, b: int| 0 <= a < b < i + 1 implies reads_no_later(#[trigger] after[a], #[trigger] after[b])
                && (same_position(after[a], after[b]) ==> perm[a] < perm[b]) by {
                let ma = moved_from(a, i as int, j as int);
                let mb = moved_from(b, i as int, j as int);
                assert(after[a] == before[ma]);
                assert(after[b] == before[mb]);
                assert(perm[a] == old_perm[ma]);
                assert(perm[b] == old_perm[mb]);
                if b == j {
                    if j > 0 {
                        assert(reads_no_later(before[a], before[j - 1]) || a == j - 1);
                    }
                } else if a == j {
                    assert(!reads_no_later(before[mb], before[i as int]));
                }
            }
            assert(views(lines@) == after);
        }
        i = i + 1;
    }
    proof {
        let out = views(lines@);
        assert forall|k: int| 0 <= k < out.len() - 1 implies reads_no_later(#[trigger] out[k], out[k + 1]) by {
        }
        assert(is_stable_rearrangement(out, orig, perm));
        assert forall|a: int, b: int| 0 <= a < b < lines@.len() implies reads_no_later(
            #[trigger] lines@[a]@,
            #[trigger] lines@[b]@,
        ) by {
            assert(out[a] == lines@[a]@ && out[b] == lines@[b]@);
        }
    }
}

/// How far, in pixels, the first line must stand to the right of every other line
/// to be read as a name label.
pub const NAME_LABEL_OFFSET: i64 = 60;

/// One line as the recognition service reports it: its bounding box, written
/// `x,y,width,height`, and the text of each of its words, in the order reported.
pub struct RawDetection {
    pub bounding_box: String,
    pub words: Vec<String>,
}

/// The words, each trimmed, joined with no separator.
pub open spec fn joined_words(words: Seq<String>) -> Seq<char>
    decreases words.len(),
{
    if words.len() == 0 {
        Seq::empty()
    } else {
        joined_words(words.drop_last()) + trimmed(words.last()@)
    }
}

/// The texts of the lines, one after another with no separator.
pub open spec fn concat_texts(lines: Seq<LineView>) -> Seq<char>
    decreases lines.len(),
{
    if lines.len() == 0 {
        Seq::empty()
    } else {
        concat_texts(lines.drop_last()) + lines.last().text
    }
}

/// There is more than one line, and the first stands more than `offset` pixels to
/// the right of each of the others.
pub open spec fn first_is_name_label(lines: Seq<LineView>, offset: int) -> bool {
    lines.len() > 1 && forall|k: int| 1 <= k < lines.len() ==> lines[0].x - #[trigger] lines[k].x > offset
}

/// The text of lines already in reading order: the first line, `": "` and the rest
/// where the first is a name label, else all of them, with no separator.
pub open spec fn assembled_text(lines: Seq<LineView>, offset: int) -> Seq<char> {
    if first_is_name_label(lines, offset) {
        lines[0].text + seq![':', ' '] + concat_texts(lines.drop_first())
    } else {
        concat_texts(lines)
    }
}

/// Every bounding box of the detections is well formed.
pub open spec fn all_boxes_valid(detections: Seq<RawDetection>) -> bool {
    forall|i: int| 0 <= i < detections.len() ==> (#[trigger] bounding_box_spec(detections[i].bounding_box@)) is Some
}

/// The line that a detection with a well-formed bounding box describes.
pub open spec fn detected_line(d: RawDetection) -> LineView {
    let b = bounding_box_spec(d.bounding_box@)->0;
    LineView { x: b.0, y: b.1, width: b.2, height: b.3, text: joined_words(d.words@) }
}

/// The lines that the detections describe, in the order given.
pub open spec fn detected_lines(detections: Seq<RawDetection>) -> Seq<LineView> {
    detections.map_values(|d: RawDetection| detected_line(d))
}

/// `text` is what the detections read as: their lines sorted into reading order by a
/// stable sort, then assembled.
pub open spec fn reconstructs_to(detections: Seq<RawDetection>, offset: int, text: Seq<char>) -> bool {
    exists|sorted: Seq<LineView>|
        is_stable_sort_of(sorted, detected_lines(detections)) && text == assembled_text(sorted, offset)
}

/// Appends the words to the line's text: each trimmed, with no separator.
pub fn build_line_text(line: &mut InterpretedLine, words: &Vec<String>)
    ensures
        final(line).x == old(line).x,
        final(line).y == old(line).y,
        final(line).width == old(line).width,
        final(line).height == old(line).height,
        final(line).text@ == old(line).text@ + joined_words(words@),
{
    let mut i: usize = 0;
    while i < words.len()
        invariant
            i <= words@.len(),
            line.x == old(line).x,
            line.y == old(line).y,
            line.width == old(line).width,
            line.height == old(line).height,
            line.text@ == old(line).text@ + joined_words(words@.subrange(0, i as int)),
        decreases words@.len() - i,
    {
        let word = trim(words[i].as_str());
        let ghost before = line.text@;
        line.text.append(word.as_str());
        proof {
            let next = words@.subrange(0, i + 1);
            assert(next.drop_last() =~= words@.subrange(0, i as int));
            assert(line.text@ =~= old(line).text@ + joined_words(next));
        }
        i = i + 1;
    }
    proof {
        assert(words@.subrange(0, words@.len() as int) =~= words@);
    }
}

/// Whether the first of the lines, already in reading order, is a name label: there
/// is more than one line, and it stands more than `offset` pixels to the right of
/// each of the others.
pub fn is_name_label(lines: &Vec<InterpretedLine>, offset: i64) -> (r: bool)
    ensures
        r == first_is_name_label(views(lines@), offset as int),
{
    if lines.len() <= 1 {
        return false;
    }
    let first_x = lines[0].x as i64;
    let mut k: usize = 1;
    while k < lines.len()
        invariant
            1 <= k <= lines@.len(),
            first_x == lines@[0].x,
            forall|m: int| 1 <= m < k ==> lines@[0].x - #[trigger] lines@[m].x > offset,
        decreases lines@.len() - k,
    {
        if first_x - (lines[k].x as i64) <= offset {
            proof {
                let v = views(lines@);
                assert(v[0] == lines@[0]@ && v[k as int] == lines@[k as int]@);
                assert(!(v[0].x - v[k as int].x > offset));
            }
            return false;
        }
        k = k + 1;
    }
    proof {
        assert forall|m: int| 1 <= m < lines@.len() implies views(lines@)[0].x - #[trigger] views(lines@)[m].x > offset by {
            assert(views(lines@)[m] == lines@[m]@);
        }
    }
    true
}

/// The texts of `lines[from..]`, with no separator.
fn concat_from(lines: &Vec<InterpretedLine>, from: usize, out: &mut String)
    requires
        from <= lines@.len(),
    ensures
        final(out)@ == old(out)@ + concat_texts(views(lines@).subrange(from as int, lines@.len() as int)),
{
    let ghost all = views(lines@);
    let mut k: usize = from;
    while k < lines.len()
        invariant
            from <= k <= lines@.len(),
            all == views(lines@),
            out@ == old(out)@ + concat_texts(all.subrange(from as int, k as int)),
        decreases lines@.len() - k,
    {
        out.append(lines[k].text.as_str());
        proof {
            let next = all.subrange(from as int, k + 1);
            assert(next.drop_last() =~= all.subrange(from as int, k as int));
            assert(next.last() == lines@[k as int]@);
            assert(out@ =~= old(out)@ + concat_texts(next));
        }
        k = k + 1;
    }
}

/// The text of lines already in reading order: `"name: rest"` where the first line is
/// a name label (see `is_name_label`), else the texts of all the lines, with no separator.
pub fn assemble_text(lines: &Vec<InterpretedLine>, offset: i64) -> (r: String)
    ensures
        r@ == assembled_text(views(lines@), offset as int),
{
    let mut out = String::new();
    let ghost all = views(lines@);
    if is_name_label(lines, offset) {
        out.append(lines[0].text.as_str());
        out.append(": ");
        concat_from(lines, 1, &mut out);
        proof {
            reveal_strlit(": ");
            assert(all.subrange(1, all.len() as int) =~= all.drop_first());
            assert(out@ =~= all[0].text + seq![':', ' '] + concat_texts(all.drop_first()));
        }
    } else {
        concat_from(lines, 0, &mut out);
        proof {
            assert(all.subrange(0, all.len() as int) =~= all);
            assert(out@ =~= concat_texts(all));
        }
    }
    out
}

/// Parses each detection's bounding box and gathers its words into a line, in the
/// order given; an error if any bounding box is malformed.
pub fn collect_lines(detections: &Vec<RawDetection>) -> (r: Result<Vec<InterpretedLine>, ParseError>)
    ensures
        match r {
            Ok(lines) => all_boxes_valid(detections@) && views(lines@) == detected_lines(detections@),
            Err(_) => !all_boxes_valid(detections@),
        },
{
    let mut lines: Vec<InterpretedLine> = Vec::new();
    let mut i: usize = 0;
    while i < detections.len()
        invariant
            i <= detections@.len(),
            lines@.len() == i,
            forall|k: int| 0 <= k < i ==> (#[trigger] bounding_box_spec(detections@[k].bounding_box@)) is Some,
            forall|k: int| 0 <= k < i ==> #[trigger] lines@[k]@ == detected_line(detections@[k]),
        decreases detections@.len() - i,
    {
        let detection = &detections[i];
        let mut line = match InterpretedLine::parse_bounding_box(detection.bounding_box.as_str()) {
            Ok(line) => line,
            Err(e) => {
                return Err(e);
            },
        };
        build_line_text(&mut line, &detection.words);
        proof {
            assert(line.text@ =~= joined_words(detection.words@));
        }
        lines.push(line);
        i = i + 1;
    }
    proof {
        assert(views(lines@) =~= detected_lines(detections@));
    }
    Ok(lines)
}

/// The text that the detections read as, with the name-label offset given: the lines
/// sorted into reading order, then assembled by `assemble_text`. An error, and no
/// text at all, if any bounding box is malformed.
pub fn reconstruct_with_offset(detections: &Vec<RawDetection>, offset: i64) -> (r: Result<String, ParseError>)
    ensures
        match r {
            Ok(text) => all_boxes_valid(detections@) && reconstructs_to(detections@, offset as int, text@),
            Err(_) => !all_boxes_valid(detections@),
        },
{
    let mut lines = match collect_lines(detections) {
        Ok(lines) => lines,
        Err(e) => {
            return Err(e);
        },
    };
    sort_lines(&mut lines);
    let text = assemble_text(&lines, offset);
    proof {
        assert(is_stable_sort_of(views(lines@), detected_lines(detections@)));
    }
    Ok(text)
}

/// The text that the detections read as, with a name label taken where the first line
/// stands more than `NAME_LABEL_OFFSET` pixels to the right of all the others.
pub fn reconstruct(detections: &Vec<RawDetection>) -> (r: Result<String, ParseError>)
    ensures
        match r {
            Ok(text) => all_boxes_valid(detections@) && reconstructs_to(detections@, NAME_LABEL_OFFSET as int, text@),
            Err(_) => !all_boxes_valid(detections@),
        },
{
    reconstruct_with_offset(detections, NAME_LABEL_OFFSET)
}

/// A single line is never a name label, whatever its place: it reads as its own text.
pub proof fn lemma_single_line_text(lines: Seq<LineView>, offset: int)
    requires
        lines.len() == 1,
    ensures
        assembled_text(lines, offset) == lines[0].text,
{
    assert(lines.drop_last() =~= Seq::<LineView>::empty());
    assert(concat_texts(lines.drop_last()) == Seq::<char>::empty());
    assert(Seq::<char>::empty() + lines[0].text =~= lines[0].text);
    assert(lines.last() == lines[0]);
}

/// No lines read as the empty text.
pub proof fn lemma_no_lines_text(offset: int)
    ensures
        assembled_text(Seq::<LineView>::empty(), offset) == Seq::<char>::empty(),
{
}

/// A single detection reads as the text of its own line, with no label.
pub proof fn lemma_single_detection_text(detections: Seq<RawDetection>, offset: int, text: Seq<char>)
    requires
        detections.len() == 1,
        reconstructs_to(detections, offset, text),
    ensures
        text == detected_line(detections[0]).text,
{
    let inp = detected_lines(detections);
    let sorted = choose|sorted: Seq<LineView>|
        is_stable_sort_of(sorted, inp) && text == assembled_text(sorted, offset);
    let perm = choose|perm: Seq<int>| is_stable_rearrangement(sorted, inp, perm);
    assert(sorted[0] == inp[perm[0]]);
    lemma_single_line_text(sorted, offset);
}

/// No detections read as the empty text.
pub proof fn lemma_no_detections_text(detections: Seq<RawDetection>, offset: int, text: Seq<char>)
    requires
        detections.len() == 0,
        reconstructs_to(detections, offset, text),
    ensures
        text == Seq::<char>::empty(),
{
    let inp = detected_lines(detections);
    let sorted = choose|sorted: Seq<LineView>|
        is_stable_sort_of(sorted, inp) && text == assembled_text(sorted, offset);
    let perm = choose|perm: Seq<int>| is_stable_rearrangement(sorted, inp, perm);
    assert(sorted =~= Seq::<LineView>::empty());
}

/// A one-to-one map of `n` positions into `n` positions reaches every position.
proof fn lemma_perm_reaches(perm: Seq<int>, n: int, p: int)
    requires
        perm.len() == n,
        forall|i: int| 0 <= i < n ==> 0 <= #[trigger] perm[i] < n,
        forall|i: int, j: int| 0 <= i < j < n ==> #[trigger] perm[i] != #[trigger] perm[j],
        0 <= p < n,
    ensures
        exists|k: int| 0 <= k < n && perm[k] == p,
{
    if !(exists|k: int| 0 <= k < n && perm[k] == p) {
        assert(perm.no_duplicates()) by {
            assert forall|i: int, j: int| 0 <= i < perm.len() && 0 <= j < perm.len() && i != j
                implies perm[i] != perm[j] by {
                if i < j {
                    assert(perm[i] != perm[j]);
                } else {
                    assert(perm[j] != perm[i]);
                }
            }
        }
        perm.unique_seq_to_set();
        lemma_int_range(0, n);
        let others = set_int_range(0, n).remove(p);
        assert(perm.to_set().subset_of(others)) by {
            assert forall|q: int| perm.to_set().contains(q) implies others.contains(q) by {
                let k = choose|k: int| 0 <= k < perm.len() && perm[k] == q;
                assert(perm[k] == q);
            }
        }
        lemma_len_subset(perm.to_set(), others);
    }
}

/// In reading order, each line reads no later than any line after it.
proof fn lemma_reading_order_all_pairs(s: Seq<LineView>, a: int, b: int)
    requires
        in_reading_order(s),
        0 <= a <= b < s.len(),
    ensures
        reads_no_later(s[a], s[b]),
    decreases b - a,
{
    if a < b {
        lemma_reading_order_all_pairs(s, a, b - 1);
        assert(reads_no_later(s[b - 1], s[b]));
    }
}

/// The position in `inp.remove(p)` of what stands at `q != p` in `inp`.
spec fn skip_position(q: int, p: int) -> int {
    if q > p {
        q - 1
    } else {
        q
    }
}

/// Taking the last line off a stable sort leaves a stable sort of the input without it.
proof fn lemma_stable_sort_drop_last(out: Seq<LineView>, inp: Seq<LineView>, perm: Seq<int>)
    requires
        out.len() > 0,
        in_reading_order(out),
        is_stable_rearrangement(out, inp, perm),
    ensures
        in_reading_order(out.drop_last()),
        is_stable_rearrangement(
            out.drop_last(),
            inp.remove(perm.last()),
            perm.drop_last().map_values(|q: int| skip_position(q, perm.last())),
        ),
{
    let n = out.len();
    let p = perm.last();
    let o = out.drop_last();
    let i2 = inp.remove(p);
    let m = perm.drop_last().map_values(|q: int| skip_position(q, p));
    assert forall|k: int| 0 <= k < o.len() - 1 implies reads_no_later(#[trigger] o[k], o[k + 1]) by {
        assert(reads_no_later(out[k], out[k + 1]));
    }
    assert forall|i: int| 0 <= i < o.len() implies 0 <= #[trigger] m[i] < i2.len() && o[i] == i2[m[i]] by {
        assert(perm[i] != perm[n - 1]);
    }
    assert forall|i: int, j: int| 0 <= i < j < o.len() implies #[trigger] m[i] != #[trigger] m[j] by {
        assert(perm[i] != perm[j]);
        assert(perm[i] != perm[n - 1]);
        assert(perm[j] != perm[n - 1]);
    }
    assert forall|i: int, j: int|
        0 <= i < j < o.len() && same_position(#[trigger] o[i], #[trigger] o[j]) implies m[i] < m[j] by {
        assert(out[i] == o[i] && out[j] == o[j]);
        assert(perm[i] < perm[j]);
    }
}

/// A sequence of lines has one stable sort into reading order only: two agree.
pub proof fn lemma_stable_sort_unique(a: Seq<LineView>, b: Seq<LineView>, inp: Seq<LineView>)
    requires
        is_stable_sort_of(a, inp),
        is_stable_sort_of(b, inp),
    ensures
        a == b,
    decreases inp.len(),
{
    let pa = choose|perm: Seq<int>| is_stable_rearrangement(a, inp, perm);
    let pb = choose|perm: Seq<int>| is_stable_rearrangement(b, inp, perm);
    let n = inp.len() as int;
    if n == 0 {
        assert(a =~= b);
    } else {
        let p = pa[n - 1];
        let q = pb[n - 1];
        lemma_perm_reaches(pa, n, q);
        lemma_perm_reaches(pb, n, p);
        let ka = choose|k: int| 0 <= k < n && pa[k] == q;
        let kb = choose|k: int| 0 <= k < n && pb[k] == p;
        lemma_reading_order_all_pairs(a, ka, n - 1);
        lemma_reading_order_all_pairs(b, kb, n - 1);
        assert(a[ka] == inp[q] && a[n - 1] == inp[p]);
        assert(b[kb] == inp[p] && b[n - 1] == inp[q]);
        if p != q {
            assert(same_position(inp[p], inp[q]));
            assert(ka < n - 1 && kb < n - 1);
            assert(same_position(a[ka], a[n - 1]));
            assert(same_position(b[kb], b[n - 1]));
            assert(pa[ka] < pa[n - 1]);
            assert(pb[kb] < pb[n - 1]);
            assert(false);
        }
        lemma_stable_sort_drop_last(a, inp, pa);
        lemma_stable_sort_drop_last(b, inp, pb);
        let rest = inp.remove(p);
        let ma = pa.drop_last().map_values(|r: int| skip_position(r, p));
        let mb = pb.drop_last().map_values(|r: int| skip_position(r, p));
        assert(is_stable_sort_of(a.drop_last(), rest));
        assert(is_stable_sort_of(b.drop_last(), rest));
        lemma_stable_sort_unique(a.drop_last(), b.drop_last(), rest);
        assert(a =~= b) by {
            assert forall|k: int| 0 <= k < n implies a[k] == b[k] by {
                if k < n - 1 {
                    assert(a[k] == a.drop_last()[k]);
                    assert(b[k] == b.drop_last()[k]);
                }
            }
        }
    }
}

/// The detections read as one text only: what `reconstruct` returns is determined.
pub proof fn lemma_reconstruction_unique(
    detections: Seq<RawDetection>,
    offset: int,
    t1: Seq<char>,
    t2: Seq<char>,
)
    requires
        reconstructs_to(detections, offset, t1),
        reconstructs_to(detections, offset, t2),
    ensures
        t1 == t2,
{
    let inp = detected_lines(detections);
    let s1 = choose|sorted: Seq<LineView>|
        is_stable_sort_of(sorted, inp) && t1 == assembled_text(sorted, offset);
    let s2 = choose|sorted: Seq<LineView>|
        is_stable_sort_of(sorted, inp) && t2 == assembled_text(sorted, offset);
    lemma_stable_sort_unique(s1, s2, inp);
}

} // verus!
