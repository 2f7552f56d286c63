//! The Infomap `.tree` output format: one node per line, written as
//! `path flow name node_id`, where the first component of the colon separated
//! path is the node's top-level module.
use vstd::prelude::*;

pub use crate::community::{
    find_infomap, find_infomap_path, has_infomap, DirEntryInfo, InfomapLocation,
};

use crate::text::{
    all_digits, chars_of, decimal_value, find_char, is_digit, is_space, is_space_char,
    lemma_run_before, lemma_run_before_concat, lemma_word_len, lemma_words_nonempty,
    parse_or_zero, parse_u32_or_zero, parse_usize_or_zero, run_before, words,
};


verus! {

/// The record that one line of a `.tree` file yields: none for a blank line,
/// a comment (`#`), a header (`*`) or a line of fewer than four fields;
/// otherwise `(node_id, module)`, where `node_id` is the fourth field and
/// `module` the part of the first field before its first `:`, each 0 where it
/// does not parse as a number.
pub open spec fn tree_line(line: Seq<char>) -> Seq<(usize, u32)> {
    let w = words(line);
    if w.len() < 4 || w[0][0] == '#' || w[0][0] == '*' {
        seq![]
    } else {
        let first = w[0];
        seq![
            (
                parse_or_zero(w[3], usize::MAX as int) as usize,
                parse_or_zero(first.take(run_before(first, ':') as int), u32::MAX as int) as u32,
            ),
        ]
    }
}

/// The records of a whole `.tree` text, line by line (lines end at `\n`).
pub open spec fn tree_records(s: Seq<char>) -> Seq<(usize, u32)>
    decreases s.len(),
{
    let n = run_before(s, '\n');
    if n < s.len() {
        tree_line(s.take(n as int)) + tree_records(s.skip(n as int + 1))
    } else {
        tree_line(s)
    }
}

/// Records are read line by line: the records of two texts joined by a line
/// break are the records of the first followed by those of the second.
pub proof fn lemma_tree_records_line_by_line(a: Seq<char>, b: Seq<char>)
    ensures
        tree_records(a + seq!['\n'] + b) == tree_records(a) + tree_records(b),
    decreases a.len(),
{
    let s = a + seq!['\n'] + b;
    let m = run_before(a, '\n');
    lemma_run_before_concat(a, seq!['\n'] + b, '\n');
    assert(s =~= a + (seq!['\n'] + b));
    if m < a.len() {
        assert(s.take(m as int) =~= a.take(m as int));
        assert(s.skip(m as int + 1) =~= a.skip(m as int + 1) + seq!['\n'] + b);
        lemma_tree_records_line_by_line(a.skip(m as int + 1), b);
        assert(tree_records(s) == tree_line(a.take(m as int)) + (tree_records(a.skip(m as int + 1))
            + tree_records(b)));
        assert(tree_records(s) =~= tree_records(a) + tree_records(b));
    } else {
        assert(run_before(seq!['\n'] + b, '\n') == 0);
        assert(s.take(m as int) =~= a);
        assert(s.skip(m as int + 1) =~= b);
        assert(tree_records(s) =~= tree_records(a) + tree_records(b));
    }
}

/// The numbers of a record are read in full: on a line that carries a record,
/// where the fourth field is a string of decimal digits whose value fits in
/// `usize`, the record's node id is that value, however large; and where the
/// part of the first field before its first `:` is a string of digits whose
/// value fits in `u32`, the record's module is that value.
pub proof fn lemma_tree_record_fields(line: Seq<char>)
    requires
        !line.contains('\n'),
        words(line).len() >= 4,
        words(line)[0][0] != '#',
        words(line)[0][0] != '*',
    ensures
        tree_records(line).len() == 1,
        all_digits(words(line)[3]) && decimal_value(words(line)[3]) <= usize::MAX
            ==> tree_records(line)[0].0 as nat == decimal_value(words(line)[3]),
        ({
            let first = words(line)[0];
            let m = first.take(run_before(first, ':') as int);
            m.len() > 0 && all_digits(m) && decimal_value(m) <= u32::MAX
                ==> tree_records(line)[0].1 as nat == decimal_value(m)
        }),
{
    assert forall|j: int| 0 <= j < line.len() implies line[j] != '\n' by {
        if line[j] == '\n' {
            assert(line.contains('\n'));
        }
    }
    lemma_run_before(line, '\n', line.len());
    assert(tree_records(line) == tree_line(line));
    lemma_words_nonempty(line);
    let w3 = words(line)[3];
    assert(w3.len() > 0);
    if all_digits(w3) {
        assert(is_digit(w3[0]));
    }
    let first = words(line)[0];
    let m = first.take(run_before(first, ':') as int);
    if m.len() > 0 && all_digits(m) {
        assert(is_digit(m[0]));
    }
}

/// A line with fewer than four fields, or whose first field starts with `#`
/// (a comment) or `*` (a header), carries no record; blank lines included.
pub proof fn lemma_tree_skipped_line(line: Seq<char>)
    requires
        !line.contains('\n'),
        words(line).len() < 4 || words(line)[0][0] == '#' || words(line)[0][0] == '*',
    ensures
        tree_records(line).len() == 0,
{
    assert forall|j: int| 0 <= j < line.len() implies line[j] != '\n' by {
        if line[j] == '\n' {
            assert(line.contains('\n'));
        }
    }
    lemma_run_before(line, '\n', line.len());
}

/// Start and end of each whitespace separated word of `cs[lo..hi]`.
fn word_bounds(cs: &Vec<char>, lo: usize, hi: usize) -> (bounds: Vec<(usize, usize)>)
    requires
        lo <= hi <= cs@.len(),
    ensures
        bounds@.len() == words(cs@.subrange(lo as int, hi as int)).len(),
        forall|k: int|
            0 <= k < bounds@.len() ==> {
                &&& lo <= (#[trigger] bounds@[k]).0 < bounds@[k].1 <= hi
                &&& cs@.subrange(bounds@[k].0 as int, bounds@[k].1 as int) == words(
                    cs@.subrange(lo as int, hi as int),
                )[k]
            },
{
    let mut bounds: Vec<(usize, usize)> = Vec::new();
    let ghost mut found: Seq<Seq<char>> = seq![];
    let mut i = lo;
    while i < hi
        invariant
            lo <= i <= hi <= cs@.len(),
            words(cs@.subrange(lo as int, hi as int)) == found + words(
                cs@.subrange(i as int, hi as int),
            ),
            bounds@.len() == found.len(),
            forall|k: int|
                0 <= k < bounds@.len() ==> {
                    &&& lo <= (#[trigger] bounds@[k]).0 < bounds@[k].1 <= i
                    &&& cs@.subrange(bounds@[k].0 as int, bounds@[k].1 as int) == found[k]
                },
        decreases hi - i,
    {
        let ghost rest = cs@.subrange(i as int, hi as int);
        if is_space_char(cs[i]) {
            assert(rest.drop_first() =~= cs@.subrange(i + 1, hi as int));
            i += 1;
        } else {
            let mut j = i + 1;
            while j < hi && !is_space_char(cs[j])
                invariant
                    i < j <= hi <= cs@.len(),
                    forall|t: int| i <= t < j ==> !is_space(cs@[t]),
                decreases hi - j,
            {
                j += 1;
            }
            proof {
                lemma_word_len(rest, (j - i) as nat);
                assert(rest.take((j - i) as int) =~= cs@.subrange(i as int, j as int));
                assert(rest.skip((j - i) as int) =~= cs@.subrange(j as int, hi as int));
                assert(found.push(cs@.subrange(i as int, j as int)) + words(
                    cs@.subrange(j as int, hi as int),
                ) =~= found + words(rest));
                found = found.push(cs@.subrange(i as int, j as int));
            }
            bounds.push((i, j));
            i = j;
        }
    }
    assert(words(cs@.subrange(hi as int, hi as int)) =~= Seq::<Seq<char>>::empty());
    assert(found + words(cs@.subrange(i as int, hi as int)) =~= found);
    bounds
}

/// The record of the line `cs[lo..hi]`, if it has one.
fn parse_tree_line(cs: &Vec<char>, lo: usize, hi: usize) -> (r: Option<(usize, u32)>)
    requires
        lo <= hi <= cs@.len(),
    ensures
        tree_line(cs@.subrange(lo as int, hi as int)) == match r {
            Some(x) => seq![x],
            None => seq![],
        },
{
    let ghost line = cs@.subrange(lo as int, hi as int);
    let bounds = word_bounds(cs, lo, hi);
    if bounds.len() < 4 {
        return None;
    }
    let (a0, b0) = bounds[0];
    assert(words(line)[0][0] == cs@[a0 as int]);
    if cs[a0] == '#' || cs[a0] == '*' {
        return None;
    }
    let colon = find_char(cs, a0, b0, ':');
    let module = parse_u32_or_zero(cs, a0, colon);
    let (a3, b3) = bounds[3];
    let node = parse_usize_or_zero(cs, a3, b3);
    assert(cs@.subrange(a0 as int, colon as int) =~= words(line)[0].take(
        run_before(words(line)[0], ':') as int,
    ));
    Some((node, module))
}

/// Parses the text of an Infomap `.tree` file into `(node_id, module)` pairs,
/// in the order of the lines that carry them.
pub fn parse_tree_file(contents: &str) -> (records: Vec<(usize, u32)>)
    ensures
        records@ == tree_records(contents@),
{
    let cs = chars_of(contents);
    let len = cs.len();
    let mut records: Vec<(usize, u32)> = Vec::new();
    let mut start: usize = 0;
    assert(cs@.skip(0) =~= cs@);
    assert(records@ + tree_records(cs@) =~= tree_records(cs@));
    while start < len
        invariant
            cs@ == contents@,
            len == cs@.len(),
            start <= len,
            tree_records(cs@) == records@ + tree_records(cs@.skip(start as int)),
        decreases len - start,
    {
        let end = find_char(&cs, start, len, '\n');
        let rec = parse_tree_line(&cs, start, end);
        let ghost t = cs@.skip(start as int);
        let ghost before = records@;
        assert(cs@.subrange(start as int, len as int) =~= t);
        assert(t.take((end - start) as int) =~= cs@.subrange(start as int, end as int));
        match rec {
            Some(x) => {
                records.push(x);
            },
            None => {},
        }
        assert(records@ =~= before + tree_line(cs@.subrange(start as int, end as int)));
        if end < len {
            assert(t.skip(end - start + 1) =~= cs@.skip(end + 1));
            start = end + 1;
        } else {
            assert(t =~= cs@.subrange(start as int, end as int));
            assert(tree_records(cs@.skip(len as int)) =~= Seq::<(usize, u32)>::empty()) by {
                assert(cs@.skip(len as int) =~= Seq::<char>::empty());
                assert(words(Seq::<char>::empty()) =~= Seq::<Seq<char>>::empty());
            }
            start = len;
        }
    }
    assert(tree_records(cs@.skip(len as int)) =~= Seq::<(usize, u32)>::empty()) by {
        assert(cs@.skip(len as int) =~= Seq::<char>::empty());
        assert(words(Seq::<char>::empty()) =~= Seq::<Seq<char>>::empty());
    }
    assert(records@ + Seq::<(usize, u32)>::empty() =~= records@);
    records
}

/// The file name has the extension `tree`: it ends in `.tree` after a
/// non-empty stem.
pub open spec fn has_tree_extension(name: Seq<char>) -> bool {
    name.len() > 5 && name.skip(name.len() - 5) == seq!['.', 't', 'r', 'e', 'e']
}

/// Whether a file name has the extension `tree`.
pub fn is_tree_file(name: &str) -> (b: bool)
    ensures
        b == has_tree_extension(name@),
{
    let cs = chars_of(name);
    let len = cs.len();
    if len <= 5 {
        return false;
    }
    let suffix = vec!['.', 't', 'r', 'e', 'e'];
    let mut t: usize = 0;
    while t < 5
        invariant
            len == cs@.len(),
            cs@ == name@,
            len > 5,
            suffix@ == seq!['.', 't', 'r', 'e', 'e'],
            t <= 5,
            forall|u: int| 0 <= u < t ==> cs@[len - 5 + u] == suffix@[u],
        decreases 5 - t,
    {
        if cs[len - 5 + t] != suffix[t] {
            assert(cs@.skip(len - 5)[t as int] != seq!['.', 't', 'r', 'e', 'e'][t as int]);
            return false;
        }
        t += 1;
    }
    assert(cs@.skip(len - 5) =~= seq!['.', 't', 'r', 'e', 'e']);
    true
}

} // verus!
