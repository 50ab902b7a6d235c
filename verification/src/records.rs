//! The log's framing: each record is written as one line.

use vstd::prelude::*;
use vstd::string::*;
use crate::outside::push_char;

verus! {

broadcast use vstd::string::group_string_axioms;

/// `s` split at every newline, as `str::split('\n')` splits it: `n` newlines
/// give `n + 1` pieces, the last one being what follows the final newline.
pub open spec fn split_lines(s: Seq<char>) -> Seq<Seq<char>>
    decreases s.len(),
{
    if s.len() == 0 {
        seq![Seq::<char>::empty()]
    } else {
        let rest = split_lines(s.drop_last());
        if s.last() == '\n' {
            rest.push(Seq::<char>::empty())
        } else {
            rest.update(rest.len() - 1, rest.last().push(s.last()))
        }
    }
}

/// The lines of `s` that a newline closes: every piece but the last.
pub open spec fn complete_lines(s: Seq<char>) -> Seq<Seq<char>> {
    split_lines(s).drop_last()
}

/// `s` without its newline characters.
pub open spec fn strip_newlines(s: Seq<char>) -> Seq<char>
    decreases s.len(),
{
    if s.len() == 0 {
        s
    } else {
        let rest = strip_newlines(s.drop_last());
        if s.last() == '\n' {
            rest
        } else {
            rest.push(s.last())
        }
    }
}

/// Taking newlines out removes newlines and nothing else: it keeps every
/// other character, in order.
pub proof fn lemma_strip_newlines_is_filter(s: Seq<char>)
    ensures
        strip_newlines(s) == s.filter(|c: char| c != '\n'),
    decreases s.len(),
{
    reveal(Seq::filter);
    if s.len() > 0 {
        lemma_strip_newlines_is_filter(s.drop_last());
    }
}

/// Text without a newline is left as it is.
pub proof fn lemma_strip_newlines_keeps_plain_text(s: Seq<char>)
    requires
        !s.contains('\n'),
    ensures
        strip_newlines(s) == s,
    decreases s.len(),
{
    if s.len() > 0 {
        let front = s.drop_last();
        assert(!front.contains('\n')) by {
            assert forall|i: int| 0 <= i < front.len() implies front[i] != '\n' by {
                assert(front[i] == s[i]);
            }
        }
        lemma_strip_newlines_keeps_plain_text(front);
        assert(s.last() != '\n') by {
            assert(s[s.len() - 1] == s.last());
        }
        assert(front.push(s.last()) =~= s);
    }
}

/// Each record followed by a newline, one after the other.
pub open spec fn join_records(rs: Seq<Seq<char>>) -> Seq<char>
    decreases rs.len(),
{
    if rs.len() == 0 {
        Seq::<char>::empty()
    } else {
        join_records(rs.drop_last()) + rs.last() + seq!['\n']
    }
}

/// Each record without its newlines.
pub open spec fn stripped(rs: Seq<Seq<char>>) -> Seq<Seq<char>> {
    rs.map_values(|e: Seq<char>| strip_newlines(e))
}

/// The views of a sequence of strings.
pub open spec fn string_views(v: Seq<String>) -> Seq<Seq<char>> {
    v.map_values(|s: String| s@)
}

/// Splitting never gives zero pieces.
pub proof fn lemma_split_lines_nonempty(s: Seq<char>)
    ensures
        split_lines(s).len() >= 1,
    decreases s.len(),
{
    if s.len() > 0 {
        lemma_split_lines_nonempty(s.drop_last());
    }
}

/// Stripping leaves no newline.
pub proof fn lemma_strip_newlines_has_none(s: Seq<char>)
    ensures
        !strip_newlines(s).contains('\n'),
    decreases s.len(),
{
    if s.len() > 0 {
        lemma_strip_newlines_has_none(s.drop_last());
        let rest = strip_newlines(s.drop_last());
        if s.last() != '\n' {
            assert forall|i: int| 0 <= i < rest.push(s.last()).len() implies rest.push(s.last())[i] != '\n' by {
                if i < rest.len() {
                    assert(rest.push(s.last())[i] == rest[i]);
                }
            }
        }
    }
}

/// A text without newlines extends the last piece.
pub proof fn lemma_split_lines_append_plain(s: Seq<char>, r: Seq<char>)
    requires
        !r.contains('\n'),
    ensures
        split_lines(s + r) == split_lines(s).update(
            split_lines(s).len() - 1,
            split_lines(s).last() + r,
        ),
    decreases r.len(),
{
    lemma_split_lines_nonempty(s);
    if r.len() == 0 {
        assert(s + r =~= s);
        assert(split_lines(s).last() + r =~= split_lines(s).last());
        assert(split_lines(s).update(split_lines(s).len() - 1, split_lines(s).last()) =~= split_lines(s));
    } else {
        let r0 = r.drop_last();
        assert(!r0.contains('\n')) by {
            assert forall|i: int| 0 <= i < r0.len() implies r0[i] != '\n' by {
                assert(r0[i] == r[i]);
            }
        }
        lemma_split_lines_append_plain(s, r0);
        assert((s + r).drop_last() =~= s + r0);
        assert((s + r).last() == r.last());
        assert(r.last() != '\n') by {
            assert(r[r.len() - 1] == r.last());
        }
        assert(split_lines(s).last() + r0 + seq![r.last()] =~= split_lines(s).last() + r);
        assert((split_lines(s).last() + r0).push(r.last()) =~= split_lines(s).last() + r);
        assert(split_lines(s + r) =~= split_lines(s).update(
            split_lines(s).len() - 1,
            split_lines(s).last() + r,
        ));
    }
}

/// Reading back what was framed: the complete lines of joined records are
/// the records themselves, when no record holds a newline.
pub proof fn lemma_complete_lines_of_join(rs: Seq<Seq<char>>)
    requires
        forall|i: int| 0 <= i < rs.len() ==> !(#[trigger] rs[i]).contains('\n'),
    ensures
        split_lines(join_records(rs)) == rs.push(Seq::<char>::empty()),
        complete_lines(join_records(rs)) == rs,
    decreases rs.len(),
{
    if rs.len() == 0 {
        assert(split_lines(Seq::<char>::empty()) =~= seq![Seq::<char>::empty()]);
        assert(rs.push(Seq::<char>::empty()) =~= seq![Seq::<char>::empty()]);
    } else {
        let front = rs.drop_last();
        let r = rs.last();
        assert(!r.contains('\n')) by {
            assert(rs[rs.len() - 1] == r);
        }
        assert forall|i: int| 0 <= i < front.len() implies !(#[trigger] front[i]).contains('\n') by {
            assert(front[i] == rs[i]);
        }
        lemma_complete_lines_of_join(front);
        let j = join_records(front);
        lemma_split_lines_append_plain(j, r);
        assert(split_lines(j + r).last() == Seq::<char>::empty() + r);
        assert(Seq::<char>::empty() + r =~= r);
        assert(split_lines(j + r) =~= front.push(r));
        assert(front.push(r) =~= rs);
        let whole = join_records(rs);
        assert(whole == j + r + seq!['\n']);
        assert(whole.drop_last() =~= j + r);
        assert(whole.last() == '\n');
    }
    assert(split_lines(join_records(rs)).drop_last() =~= rs);
}

/// Splits `text` into the lines that a newline closes; what follows the last
/// newline is not a line.
pub fn split_complete_lines(text: &str) -> (lines: Vec<String>)
    ensures
        string_views(lines@) == complete_lines(text@),
{
    let mut lines: Vec<String> = Vec::new();
    let mut current = String::new();
    for c in it: text.chars()
        invariant
            it.seq() == text@,
            string_views(lines@).push(current@) == split_lines(it.seq().take(it.index() as int)),
    {
        let ghost before = it.seq().take(it.index() as int);
        let ghost after = it.seq().take(it.index() + 1);
        proof {
            assert(after.drop_last() =~= before);
            assert(after.last() == c);
        }
        let ghost lines_before = lines@;
        let ghost current_before = current@;
        if c == '\n' {
            let finished = current;
            lines.push(finished);
            current = String::new();
            proof {
                assert(string_views(lines@) =~= string_views(lines_before).push(current_before));
                assert(string_views(lines@).push(current@) =~= split_lines(before).push(Seq::<char>::empty()));
            }
        } else {
            push_char(&mut current, c);
            proof {
                lemma_split_lines_nonempty(before);
                assert(string_views(lines@).push(current@) =~= string_views(lines_before).push(
                    current_before,
                ).update(string_views(lines_before).len() as int, current_before.push(c)));
            }
        }
    }
    proof {
        assert(text@.take(text@.len() as int) =~= text@);
        assert(string_views(lines@) =~= string_views(lines@).push(current@).drop_last());
    }
    lines
}

/// One record as it is written to the log: the encoded document with any
/// newline taken out, closed by a newline.
pub fn frame_record(encoded: &str) -> (line: String)
    ensures
        line@ == strip_newlines(encoded@).push('\n'),
        line@ == encoded@.filter(|c: char| c != '\n').push('\n'),
        !encoded@.contains('\n') ==> line@ == encoded@.push('\n'),
{
    proof {
        lemma_strip_newlines_is_filter(encoded@);
        if !encoded@.contains('\n') {
            lemma_strip_newlines_keeps_plain_text(encoded@);
        }
    }
    let mut line = String::new();
    for c in it: encoded.chars()
        invariant
            it.seq() == encoded@,
            line@ == strip_newlines(it.seq().take(it.index() as int)),
    {
        proof {
            let after = it.seq().take(it.index() + 1);
            assert(after.drop_last() =~= it.seq().take(it.index() as int));
            assert(after.last() == c);
        }
        if c != '\n' {
            push_char(&mut line, c);
        }
    }
    proof {
        assert(encoded@.take(encoded@.len() as int) =~= encoded@);
    }
    push_char(&mut line, '\n');
    line
}

/// The text that appends the given encoded records to the log, each framed
/// by `frame_record`, in order.
pub fn log_text(records: &Vec<String>) -> (text: String)
    ensures
        text@ == join_records(stripped(string_views(records@))),
        (forall|i: int| 0 <= i < records@.len() ==> !(#[trigger] records@[i]@).contains('\n'))
            ==> text@ == join_records(string_views(records@)),
{
    proof {
        if forall|i: int| 0 <= i < records@.len() ==> !(#[trigger] records@[i]@).contains('\n') {
            assert forall|i: int| 0 <= i < records@.len() implies #[trigger] stripped(string_views(records@))[i]
                == string_views(records@)[i] by {
                lemma_strip_newlines_keeps_plain_text(records@[i]@);
            }
            assert(stripped(string_views(records@)) =~= string_views(records@));
        }
    }
    let ghost goal = stripped(string_views(records@));
    let mut text = String::new();
    let n = records.len();
    let mut i: usize = 0;
    while i < n
        invariant
            n == records@.len(),
            i <= n,
            goal == stripped(string_views(records@)),
            text@ == join_records(goal.take(i as int)),
        decreases n - i,
    {
        let line = frame_record(records[i].as_str());
        text.append(line.as_str());
        proof {
            let t = goal.take(i + 1);
            assert(t.drop_last() =~= goal.take(i as int));
            assert(t.last() == strip_newlines(records@[i as int]@));
            assert(text@ =~= join_records(t));
        }
        i = i + 1;
    }
    proof {
        assert(goal.take(n as int) =~= goal);
    }
    text
}

/// What the log framing writes, read back line by line, gives each record
/// without its newlines, in the order written.
pub proof fn lemma_log_text_round_trip(records: Seq<Seq<char>>)
    ensures
        complete_lines(join_records(stripped(records))) == stripped(records),
{
    let rs = stripped(records);
    assert forall|i: int| 0 <= i < rs.len() implies !(#[trigger] rs[i]).contains('\n') by {
        lemma_strip_newlines_has_none(records[i]);
    }
    lemma_complete_lines_of_join(rs);
}

/// Joining two runs of records one after the other is joining them at once.
pub proof fn lemma_join_records_concat(a: Seq<Seq<char>>, b: Seq<Seq<char>>)
    ensures
        join_records(a + b) == join_records(a) + join_records(b),
    decreases b.len(),
{
    if b.len() == 0 {
        assert(a + b =~= a);
        assert(join_records(a) + join_records(b) =~= join_records(a));
    } else {
        lemma_join_records_concat(a, b.drop_last());
        assert((a + b).drop_last() =~= a + b.drop_last());
        assert((a + b).last() == b.last());
        assert(join_records(a + b) =~= join_records(a) + join_records(b));
    }
}

/// Stripping record by record commutes with putting runs together.
pub proof fn lemma_stripped_concat(a: Seq<Seq<char>>, b: Seq<Seq<char>>)
    ensures
        stripped(a + b) == stripped(a) + stripped(b),
{
    assert(stripped(a + b) =~= stripped(a) + stripped(b));
}

/// The records of successive batches, one after another.
pub open spec fn all_records(batches: Seq<Seq<Seq<char>>>) -> Seq<Seq<char>>
    decreases batches.len(),
{
    if batches.len() == 0 {
        Seq::<Seq<char>>::empty()
    } else {
        all_records(batches.drop_last()) + batches.last()
    }
}

/// The texts written for successive batches, one after another.
pub open spec fn batch_texts(batches: Seq<Seq<Seq<char>>>) -> Seq<char>
    decreases batches.len(),
{
    if batches.len() == 0 {
        Seq::<char>::empty()
    } else {
        batch_texts(batches.drop_last()) + join_records(stripped(batches.last()))
    }
}

/// Writing the log batch by batch, as each round drains it, writes every
/// record once and in order: the texts of the batches, one after another,
/// are the text of all their records written at once.
pub proof fn lemma_batches_write_each_record_once(batches: Seq<Seq<Seq<char>>>)
    ensures
        batch_texts(batches) == join_records(stripped(all_records(batches))),
    decreases batches.len(),
{
    if batches.len() > 0 {
        let front = batches.drop_last();
        lemma_batches_write_each_record_once(front);
        lemma_stripped_concat(all_records(front), batches.last());
        lemma_join_records_concat(stripped(all_records(front)), stripped(batches.last()));
    } else {
        assert(stripped(all_records(batches)) =~= Seq::<Seq<char>>::empty());
    }
}

} // verus!
