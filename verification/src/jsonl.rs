//! JSON Lines framing: one record per line.
//!
//! Writing puts each record on a line of its own, ended by `\n`. Reading splits
//! the text into lines as `BufRead::lines` does (a line ends at `\n`, and a `\r`
//! just before that `\n` is dropped; a last line needs no `\n`) and keeps the
//! lines that are not blank, a blank line being one of white space only (as
//! `str::trim` counts it).

use vstd::prelude::*;
use crate::external::push_char;

verus! {

/// `c` has the Unicode `White_Space` property, which `char::is_whitespace` tests.
pub open spec fn is_white_space(c: char) -> bool {
    let n = c as u32;
    ||| 0x09 <= n <= 0x0d
    ||| n == 0x20
    ||| n == 0x85
    ||| n == 0xa0
    ||| n == 0x1680
    ||| 0x2000 <= n <= 0x200a
    ||| n == 0x2028
    ||| n == 0x2029
    ||| n == 0x202f
    ||| n == 0x205f
    ||| n == 0x3000
}

/// A line that trims to nothing.
pub open spec fn is_blank(line: Seq<char>) -> bool {
    forall|i: int| 0 <= i < line.len() ==> is_white_space(#[trigger] line[i])
}

/// A line read up to a `\n`, without the `\r` that may precede that `\n`.
pub open spec fn strip_cr(line: Seq<char>) -> Seq<char> {
    if line.len() > 0 && line.last() == '\r' {
        line.drop_last()
    } else {
        line
    }
}

/// Reading `text` from the start: the records of the lines ended so far, and the
/// characters of the line not ended yet.
pub open spec fn scan(text: Seq<char>) -> (Seq<Seq<char>>, Seq<char>)
    decreases text.len(),
{
    if text.len() == 0 {
        (Seq::empty(), Seq::empty())
    } else {
        let (done, cur) = scan(text.drop_last());
        if text.last() == '\n' {
            let line = strip_cr(cur);
            (if is_blank(line) { done } else { done.push(line) }, Seq::empty())
        } else {
            (done, cur.push(text.last()))
        }
    }
}

/// The records of a JSON Lines text: its lines that are not blank, in order.
pub open spec fn records(text: Seq<char>) -> Seq<Seq<char>> {
    let (done, cur) = scan(text);
    if is_blank(cur) {
        done
    } else {
        done.push(cur)
    }
}

/// The JSON Lines text for `lines`: each line followed by `\n`.
pub open spec fn framed(lines: Seq<Seq<char>>) -> Seq<char>
    decreases lines.len(),
{
    if lines.len() == 0 {
        Seq::empty()
    } else {
        framed(lines.drop_last()) + lines.last() + seq!['\n']
    }
}

/// The characters of each string.
pub open spec fn texts(lines: Seq<String>) -> Seq<Seq<char>> {
    lines.map_values(|l: String| l@)
}

/// `line` can stand as one record: it has no line break, does not end in `\r`,
/// and is not blank.
pub open spec fn is_record_line(line: Seq<char>) -> bool {
    &&& !line.contains('\n')
    &&& !(line.len() > 0 && line.last() == '\r')
    &&& !is_blank(line)
}

proof fn lemma_blank_push(line: Seq<char>, c: char)
    ensures
        is_blank(line.push(c)) == (is_blank(line) && is_white_space(c)),
{
    if is_blank(line) && is_white_space(c) {
        assert forall|i: int| 0 <= i < line.push(c).len() implies is_white_space(
            #[trigger] line.push(c)[i],
        ) by {
            if i < line.len() {
                assert(line.push(c)[i] == line[i]);
            }
        }
    }
    if is_blank(line.push(c)) {
        assert(line.push(c)[line.len() as int] == c);
        assert forall|i: int| 0 <= i < line.len() implies is_white_space(#[trigger] line[i]) by {
            assert(line.push(c)[i] == line[i]);
        }
    }
}

/// Reading on past characters that hold no line break only extends the open line.
proof fn lemma_scan_append_line(t: Seq<char>, l: Seq<char>)
    requires
        !l.contains('\n'),
    ensures
        scan(t + l) == (scan(t).0, scan(t).1 + l),
    decreases l.len(),
{
    if l.len() == 0 {
        assert(t + l =~= t);
        assert(scan(t).1 + l =~= scan(t).1);
    } else {
        let l0 = l.drop_last();
        assert(!l0.contains('\n')) by {
            if l0.contains('\n') {
                let i = choose|i: int| 0 <= i < l0.len() && l0[i] == '\n';
                assert(l[i] == '\n');
            }
        }
        lemma_scan_append_line(t, l0);
        assert((t + l).drop_last() =~= t + l0);
        assert((t + l).last() == l.last());
        assert(l[l.len() - 1] == l.last());
        assert(scan(t).1 + l =~= (scan(t).1 + l0).push(l.last()));
    }
}

proof fn lemma_scan_framed(lines: Seq<Seq<char>>)
    requires
        forall|i: int| 0 <= i < lines.len() ==> is_record_line(#[trigger] lines[i]),
    ensures
        scan(framed(lines)) == (lines, Seq::<char>::empty()),
    decreases lines.len(),
{
    if lines.len() > 0 {
        let prev = lines.drop_last();
        assert forall|i: int| 0 <= i < prev.len() implies is_record_line(#[trigger] prev[i]) by {
            assert(prev[i] == lines[i]);
        }
        lemma_scan_framed(prev);
        let l = lines.last();
        assert(is_record_line(lines[lines.len() - 1]));
        let t = framed(lines);
        assert(t.drop_last() =~= framed(prev) + l);
        assert(t.last() == '\n');
        lemma_scan_append_line(framed(prev), l);
        assert(Seq::<char>::empty() + l =~= l);
        assert(strip_cr(l) == l);
        assert(prev.push(l) =~= lines);
    }
}

/// Reading back a framed text gives the lines that were framed, when each of them
/// can stand as a record (no line break, no final `\r`, not blank).
pub proof fn lemma_records_of_framed(lines: Seq<Seq<char>>)
    requires
        forall|i: int| 0 <= i < lines.len() ==> is_record_line(#[trigger] lines[i]),
    ensures
        records(framed(lines)) == lines,
{
    lemma_scan_framed(lines);
}

/// A text that is empty or ends with `\n` leaves no line open.
proof fn lemma_scan_closed(a: Seq<char>)
    requires
        a.len() == 0 || a.last() == '\n',
    ensures
        scan(a).1 == Seq::<char>::empty(),
{
}

/// Reading on after a text that leaves no line open reads the rest as if on its own.
proof fn lemma_scan_concat(a: Seq<char>, b: Seq<char>)
    requires
        scan(a).1 == Seq::<char>::empty(),
    ensures
        scan(a + b) == (scan(a).0 + scan(b).0, scan(b).1),
    decreases b.len(),
{
    if b.len() == 0 {
        assert(a + b =~= a);
        assert(scan(a).0 + scan(b).0 =~= scan(a).0);
    } else {
        let b0 = b.drop_last();
        lemma_scan_concat(a, b0);
        assert((a + b).drop_last() =~= a + b0);
        assert((a + b).last() == b.last());
        let da = scan(a).0;
        let (d0, c0) = scan(b0);
        let line = strip_cr(c0);
        assert((da + d0).push(line) =~= da + d0.push(line));
    }
}

/// The records of the lines ended by `\n` come first, then those of the rest: for any
/// text `a` that is empty or ends with `\n`, and any text `b`,
/// `records(a + b) == records(a) + records(b)`.
pub proof fn lemma_records_concat(a: Seq<char>, b: Seq<char>)
    requires
        a.len() == 0 || a.last() == '\n',
    ensures
        records(a + b) == records(a) + records(b),
{
    lemma_scan_closed(a);
    lemma_scan_concat(a, b);
    let da = scan(a).0;
    let (db, cb) = scan(b);
    assert(is_blank(Seq::<char>::empty()));
    assert((da + db).push(cb) =~= da + db.push(cb));
}

/// No text has a record.
pub proof fn lemma_records_empty()
    ensures
        records(Seq::<char>::empty()) == Seq::<Seq<char>>::empty(),
{
    assert(is_blank(Seq::<char>::empty()));
}

/// One line ended by `\n` gives one record, the line without a `\r` just before the
/// `\n`, unless the line is blank, when it gives none.
pub proof fn lemma_records_of_one_ended_line(l: Seq<char>)
    requires
        !l.contains('\n'),
    ensures
        records(l.push('\n')) == if is_blank(strip_cr(l)) {
            Seq::<Seq<char>>::empty()
        } else {
            seq![strip_cr(l)]
        },
{
    lemma_scan_append_line(Seq::<char>::empty(), l);
    assert(Seq::<char>::empty() + l =~= l);
    assert(l.push('\n').drop_last() =~= l);
    assert(Seq::<Seq<char>>::empty().push(strip_cr(l)) =~= seq![strip_cr(l)]);
    assert(is_blank(Seq::<char>::empty()));
}

/// A last line with no `\n` after it gives one record, the line as it is, unless it is
/// blank, when it gives none.
pub proof fn lemma_records_of_one_open_line(l: Seq<char>)
    requires
        !l.contains('\n'),
    ensures
        records(l) == if is_blank(l) {
            Seq::<Seq<char>>::empty()
        } else {
            seq![l]
        },
{
    lemma_scan_append_line(Seq::<char>::empty(), l);
    assert(Seq::<char>::empty() + l =~= l);
    assert(Seq::<Seq<char>>::empty().push(l) =~= seq![l]);
}

/// A blank line between two record lines is skipped, and the record after it is
/// still read.
pub proof fn lemma_blank_line_between_records(l1: Seq<char>, w: Seq<char>, l2: Seq<char>)
    requires
        is_record_line(l1),
        is_record_line(l2),
        !w.contains('\n'),
        is_blank(w),
    ensures
        records(l1.push('\n') + w.push('\n') + l2.push('\n')) == seq![l1, l2],
{
    let a = l1.push('\n');
    let b = w.push('\n');
    let c = l2.push('\n');
    lemma_records_of_one_ended_line(l1);
    lemma_records_of_one_ended_line(w);
    lemma_records_of_one_ended_line(l2);
    assert(strip_cr(l1) == l1);
    assert(strip_cr(l2) == l2);
    assert(is_blank(strip_cr(w))) by {
        if w.len() > 0 && w.last() == '\r' {
            assert forall|i: int| 0 <= i < w.drop_last().len() implies is_white_space(
                #[trigger] w.drop_last()[i],
            ) by {
                assert(w.drop_last()[i] == w[i]);
            }
        }
    }
    lemma_records_concat(a, b);
    assert((a + b).last() == '\n');
    lemma_records_concat(a + b, c);
    assert(seq![l1] + Seq::<Seq<char>>::empty() + seq![l2] =~= seq![l1, l2]);
}

fn is_white_space_char(c: char) -> (w: bool)
    ensures
        w == is_white_space(c),
{
    let n = c as u32;
    (0x09 <= n && n <= 0x0d) || n == 0x20 || n == 0x85 || n == 0xa0 || n == 0x1680 || (0x2000
        <= n && n <= 0x200a) || n == 0x2028 || n == 0x2029 || n == 0x202f || n == 0x205f || n
        == 0x3000
}

/// The JSON Lines text for the given lines: each line followed by `\n`.
pub fn frame_lines(lines: &Vec<String>) -> (text: String)
    ensures
        text@ == framed(texts(lines@)),
{
    let mut text = String::new();
    let n = lines.len();
    for i in 0..n
        invariant
            n == lines@.len(),
            text@ == framed(texts(lines@.take(i as int))),
    {
        let ghost pre = texts(lines@.take(i as int));
        let ghost next = texts(lines@.take(i + 1));
        assert(next.drop_last() =~= pre);
        text.append(lines[i].as_str());
        push_char(&mut text, '\n');
        assert(text@ =~= framed(next));
    }
    assert(lines@.take(n as int) =~= lines@);
    text
}


/// The records of a JSON Lines text: its lines that are not blank, in order.
pub fn split_records(text: &str) -> (found: Vec<String>)
    ensures
        texts(found@) == records(text@),
{
    broadcast use vstd::string::axiom_spec_iter;

    let mut found: Vec<String> = Vec::new();
    let mut cur = String::new();
    let mut cr = false;
    let mut blank = true;
    for c in it: text.chars()
        invariant
            it.seq() == text@,
            ({
                let (done, line) = scan(text@.take(it.index() as int));
                &&& texts(found@) == done
                &&& line == if cr { cur@.push('\r') } else { cur@ }
            }),
            blank == is_blank(cur@),
            !cr ==> !(cur@.len() > 0 && cur@.last() == '\r'),
    {
        let ghost k = it.index() as int;
        let ghost t0 = text@.take(k);
        let ghost t1 = text@.take(k + 1);
        assert(t1.drop_last() =~= t0);
        assert(t1.last() == c);
        assert(is_white_space('\r'));
        if c == '\n' {
            proof {
                if cr {
                    assert(cur@.push('\r').drop_last() =~= cur@);
                }
            }
            if !blank {
                found.push(cur);
                assert(texts(found@) =~= scan(t1).0);
            }
            cur = String::new();
            cr = false;
            blank = true;
        } else {
            if cr {
                proof {
                    lemma_blank_push(cur@, '\r');
                }
                push_char(&mut cur, '\r');
            }
            if c == '\r' {
                cr = true;
            } else {
                let w = is_white_space_char(c);
                proof {
                    lemma_blank_push(cur@, c);
                }
                push_char(&mut cur, c);
                blank = blank && w;
                cr = false;
            }
        }
    }
    assert(text@.take(text@.len() as int) =~= text@);
    if cr {
        proof {
            lemma_blank_push(cur@, '\r');
        }
        push_char(&mut cur, '\r');
    }
    if !blank {
        found.push(cur);
        assert(texts(found@) =~= records(text@));
    }
    found
}

} // verus!
