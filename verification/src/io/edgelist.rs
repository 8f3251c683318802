use vstd::prelude::*;

use crate::error::GraphError;

use crate::io::text::{
    chars_of, decimal, is_white_space, lines_of, parse_u32, parse_u32_chars, push_decimal,
    split_lines, split_words, split_words_fold, string_of, words_of,
};

verus! {

/// Why a line of an edge list is malformed.
#[derive(Debug, Clone, Copy, PartialEq, Eq, Structural)]
pub enum EdgeLineFault {
    /// The line has fewer than two values.
    TooFewValues,
    /// The first value is not a node index.
    InvalidSource,
    /// The second value is not a node index.
    InvalidTarget,
}

/// One edge line: source and target node indices and the text of the
/// weight field, if the line has one.
#[derive(Debug, Clone)]
pub struct EdgeRecord {
    /// Source node index.
    pub from: u32,
    /// Target node index.
    pub to: u32,
    /// The third value of the line, if any.
    pub weight: Option<String>,
}

/// The edge lines of an edge list up to its first malformed line.
#[derive(Debug)]
pub struct EdgeListScan {
    /// The edge lines before the first malformed line, in order.
    pub records: Vec<EdgeRecord>,
    /// The first malformed line (1-based line number) and its fault, if any.
    pub failure: Option<(usize, EdgeLineFault)>,
    /// The largest node index among `records` (0 when there is none).
    pub max_node: u32,
}

/// A blank line or a comment line (its first value starts with `#`).
pub open spec fn line_skipped(line: Seq<char>) -> bool {
    let w = split_words(line);
    w.len() == 0 || w[0][0] == '#'
}

/// The fault of a line that is neither blank nor a comment, if it has one.
pub open spec fn line_fault(line: Seq<char>) -> Option<EdgeLineFault> {
    let w = split_words(line);
    if line_skipped(line) {
        None
    } else if w.len() < 2 {
        Some(EdgeLineFault::TooFewValues)
    } else if parse_u32(w[0]) is None {
        Some(EdgeLineFault::InvalidSource)
    } else if parse_u32(w[1]) is None {
        Some(EdgeLineFault::InvalidTarget)
    } else {
        None
    }
}

/// The edge that a well-formed edge line describes.
pub open spec fn line_record(line: Seq<char>) -> (u32, u32, Option<Seq<char>>) {
    let w = split_words(line);
    (
        parse_u32(w[0]).unwrap(),
        parse_u32(w[1]).unwrap(),
        if w.len() > 2 {
            Some(w[2])
        } else {
            None
        },
    )
}

/// The first malformed line among `lines` (1-based number) and its fault.
pub open spec fn scan_failure(lines: Seq<Seq<char>>) -> Option<(nat, EdgeLineFault)>
    decreases lines.len(),
{
    if lines.len() == 0 {
        None
    } else {
        let prev = scan_failure(lines.drop_last());
        if prev is Some {
            prev
        } else {
            match line_fault(lines.last()) {
                Some(f) => Some((lines.len(), f)),
                None => None,
            }
        }
    }
}

/// The edges of the well-formed edge lines before the first malformed line.
pub open spec fn scan_records(lines: Seq<Seq<char>>) -> Seq<(u32, u32, Option<Seq<char>>)>
    decreases lines.len(),
{
    if lines.len() == 0 {
        Seq::empty()
    } else {
        let prev = scan_records(lines.drop_last());
        if scan_failure(lines.drop_last()) is Some || line_skipped(lines.last()) || line_fault(
            lines.last(),
        ) is Some {
            prev
        } else {
            prev.push(line_record(lines.last()))
        }
    }
}

/// The largest node index among the edges (0 when there is none).
pub open spec fn records_max_node(records: Seq<(u32, u32, Option<Seq<char>>)>) -> u32
    decreases records.len(),
{
    if records.len() == 0 {
        0
    } else {
        let prev = records_max_node(records.drop_last());
        let e = records.last();
        let m = if prev >= e.0 {
            prev
        } else {
            e.0
        };
        if m >= e.1 {
            m
        } else {
            e.1
        }
    }
}

/// The characters of an optional string.
pub open spec fn weight_view(w: Option<String>) -> Option<Seq<char>> {
    match w {
        Some(s) => Some(s@),
        None => None,
    }
}

proof fn lemma_scan_frozen(lines: Seq<Seq<char>>, k: int)
    requires
        0 <= k <= lines.len(),
        scan_failure(lines.take(k)) is Some,
    ensures
        scan_failure(lines) == scan_failure(lines.take(k)),
        scan_records(lines) == scan_records(lines.take(k)),
    decreases lines.len() - k,
{
    if k < lines.len() {
        assert(lines.drop_last().take(k) =~= lines.take(k));
        lemma_scan_frozen(lines.drop_last(), k);
    } else {
        assert(lines.take(k) =~= lines);
    }
}

/// Reads an edge list: `source target [weight]` per line, values separated by
/// white space; blank lines and lines starting with `#` are skipped.
///
/// Returns the edge lines up to the first malformed line, that line's number
/// and fault, and the largest node index among the edges read.
pub fn scan_edgelist(input: &str) -> (scan: EdgeListScan)
    ensures
        ({
            let lines = split_lines(input@);
            &&& (scan.failure is Some <==> scan_failure(lines) is Some)
            &&& (scan.failure matches Some((n, f)) ==> scan_failure(lines) == Some(
                (n as nat, f),
            ))
            &&& scan.records@.len() == scan_records(lines).len()
            &&& forall|i: int|
                0 <= i < scan.records@.len() ==> (#[trigger] scan.records@[i].from, scan.records@[i].to,
                weight_view(scan.records@[i].weight)) == scan_records(lines)[i]
            &&& scan.max_node == records_max_node(scan_records(lines))
        }),
        forall|i: int|
            0 <= i < scan.records@.len() ==> #[trigger] scan.records@[i].from <= scan.max_node
                && scan.records@[i].to <= scan.max_node,
        scan.records@.len() == 0 ==> scan.max_node == 0,
        scan.records@.len() > 0 ==> exists|i: int|
            0 <= i < scan.records@.len() && (scan.max_node == #[trigger] scan.records@[i].from
                || scan.max_node == scan.records@[i].to),
{
    let chars = chars_of(input);
    let lines = lines_of(&chars);
    let ghost ls = split_lines(input@);
    assert(lines@.len() == ls.len());
    let mut records: Vec<EdgeRecord> = Vec::new();
    let mut max_node: u32 = 0;
    let mut k: usize = 0;
    while k < lines.len()
        invariant
            k <= lines@.len(),
            lines@.len() == ls.len(),
            ls == split_lines(input@),
            forall|i: int| 0 <= i < lines@.len() ==> #[trigger] lines@[i]@ == ls[i],
            scan_failure(ls.take(k as int)) is None,
            records@.len() == scan_records(ls.take(k as int)).len(),
            forall|i: int|
                0 <= i < records@.len() ==> (#[trigger] records@[i].from, records@[i].to,
                weight_view(records@[i].weight)) == scan_records(ls.take(k as int))[i],
            max_node == records_max_node(scan_records(ls.take(k as int))),
        decreases lines@.len() - k,
    {
        let ghost line = ls[k as int];
        let ghost next = ls.take(k + 1);
        assert(next.drop_last() =~= ls.take(k as int));
        assert(next.last() == line);
        let words = words_of(&lines[k]);
        assert(words@.len() == split_words(line).len());
        if words.len() == 0 || (words[0].len() > 0 && words[0][0] == '#') {
            proof {
                if words@.len() > 0 {
                    assert(words@[0]@ == split_words(line)[0]);
                }
                assert(line_skipped(line));
                assert(scan_records(next) == scan_records(ls.take(k as int)));
            }
            k = k + 1;
            continue;
        }
        proof {
            assert(words@[0]@ == split_words(line)[0]);
            if words@[0]@.len() == 0 {
                assert(split_words(line)[0].len() == 0);
                lemma_words_nonempty(line);
            }
        }
        if words.len() < 2 {
            proof {
                assert(scan_failure(next) == Some(((k + 1) as nat, EdgeLineFault::TooFewValues)));
                lemma_scan_frozen(ls, k + 1);
                assert(ls.take(ls.len() as int) =~= ls);
            }
            proof {
                let w = lemma_scan_max_node(records@, scan_records(ls.take(k as int)), max_node);
                if records@.len() > 0 {
                    assert(max_node == records@[w].from || max_node == records@[w].to);
                }
            }
            return EdgeListScan {
                records,
                failure: Some((k + 1, EdgeLineFault::TooFewValues)),
                max_node,
            };
        }
        assert(words@[1]@ == split_words(line)[1]);
        let from = match parse_u32_chars(&words[0]) {
            Some(v) => v,
            None => {
                proof {
                    assert(scan_failure(next) == Some(((k + 1) as nat, EdgeLineFault::InvalidSource)));
                    lemma_scan_frozen(ls, k + 1);
                }
                proof {
                    let w = lemma_scan_max_node(records@, scan_records(ls.take(k as int)), max_node);
                    if records@.len() > 0 {
                        assert(max_node == records@[w].from || max_node == records@[w].to);
                    }
                }
                return EdgeListScan {
                    records,
                    failure: Some((k + 1, EdgeLineFault::InvalidSource)),
                    max_node,
                };
            },
        };
        let to = match parse_u32_chars(&words[1]) {
            Some(v) => v,
            None => {
                proof {
                    assert(scan_failure(next) == Some(((k + 1) as nat, EdgeLineFault::InvalidTarget)));
                    lemma_scan_frozen(ls, k + 1);
                }
                proof {
                    let w = lemma_scan_max_node(records@, scan_records(ls.take(k as int)), max_node);
                    if records@.len() > 0 {
                        assert(max_node == records@[w].from || max_node == records@[w].to);
                    }
                }
                return EdgeListScan {
                    records,
                    failure: Some((k + 1, EdgeLineFault::InvalidTarget)),
                    max_node,
                };
            },
        };
        let weight = if words.len() > 2 {
            assert(words@[2]@ == split_words(line)[2]);
            Some(string_of(&words[2]))
        } else {
            None
        };
        if from > max_node {
            max_node = from;
        }
        if to > max_node {
            max_node = to;
        }
        let ghost prev_records = records@;
        records.push(EdgeRecord { from, to, weight });
        proof {
            assert(line_fault(line) is None);
            assert(!line_skipped(line));
            assert(scan_records(next) == scan_records(ls.take(k as int)).push(line_record(line)));
            assert(scan_records(next).drop_last() =~= scan_records(ls.take(k as int)));
            assert(scan_records(next).last() == (from, to, weight_view(weight)));
            assert forall|i: int|
                0 <= i < records@.len() implies (#[trigger] records@[i].from, records@[i].to,
            weight_view(records@[i].weight)) == scan_records(next)[i] by {
                if i < prev_records.len() {
                    assert(records@[i] == prev_records[i]);
                }
            }
        }
        k = k + 1;
    }
    assert(ls.take(ls.len() as int) =~= ls);
    proof {
        let w = lemma_scan_max_node(records@, scan_records(ls), max_node);
        if records@.len() > 0 {
            assert(max_node == records@[w].from || max_node == records@[w].to);
        }
    }
    EdgeListScan { records, failure: None, max_node }
}

proof fn lemma_words_nonempty(s: Seq<char>)
    ensures
        forall|i: int| 0 <= i < split_words(s).len() ==> #[trigger] split_words(s)[i].len() > 0,
{
    lemma_words_fold_nonempty(s);
}

proof fn lemma_words_fold_nonempty(s: Seq<char>)
    ensures
        forall|i: int|
            0 <= i < split_words_fold(s).0.len() ==> #[trigger] split_words_fold(
                s,
            ).0[i].len() > 0,
    decreases s.len(),
{
    if s.len() > 0 {
        lemma_words_fold_nonempty(s.drop_last());
        let prev = split_words_fold(s.drop_last());
        let now = split_words_fold(s);
        assert forall|i: int| 0 <= i < now.0.len() implies #[trigger] now.0[i].len() > 0 by {
            if i < prev.0.len() {
                assert(prev.0[i].len() > 0);
            }
        }
    }
}

/// The largest node index of a list of edges bounds every endpoint, and is
/// one of them (0 for no edge): the node count of an edge list, one more than
/// it, covers every node that the edges name.
pub proof fn lemma_max_node_of_records(records: Seq<(u32, u32, Option<Seq<char>>)>)
    ensures
        forall|i: int|
            0 <= i < records.len() ==> #[trigger] records[i].0 <= records_max_node(records)
                && records[i].1 <= records_max_node(records),
        records.len() == 0 ==> records_max_node(records) == 0,
        records.len() > 0 ==> exists|i: int|
            0 <= i < records.len() && (records_max_node(records) == #[trigger] records[i].0
                || records_max_node(records) == records[i].1),
    decreases records.len(),
{
    if records.len() > 0 {
        let init = records.drop_last();
        lemma_max_node_of_records(init);
        let m = records_max_node(records);
        assert forall|i: int| 0 <= i < records.len() implies #[trigger] records[i].0 <= m && records[i].1 <= m by {
            if i < init.len() {
                assert(records[i] == init[i]);
            }
        }
        let last = records.len() - 1;
        if m == records[last].0 || m == records[last].1 {
        } else {
            let j = choose|j: int|
                0 <= j < init.len() && (records_max_node(init) == #[trigger] init[j].0
                    || records_max_node(init) == init[j].1);
            assert(records[j] == init[j]);
        }
    }
}

proof fn lemma_scan_max_node(
    records: Seq<EdgeRecord>,
    recs: Seq<(u32, u32, Option<Seq<char>>)>,
    max_node: u32,
) -> (w: int)
    requires
        records.len() == recs.len(),
        forall|i: int|
            0 <= i < records.len() ==> (#[trigger] records[i].from, records[i].to, weight_view(
                records[i].weight,
            )) == recs[i],
        max_node == records_max_node(recs),
    ensures
        forall|i: int|
            0 <= i < records.len() ==> #[trigger] records[i].from <= max_node && records[i].to
                <= max_node,
        records.len() == 0 ==> max_node == 0,
        records.len() > 0 ==> 0 <= w < records.len() && (max_node == records[w].from || max_node
            == records[w].to),
{
    lemma_max_node_of_records(recs);
    assert forall|i: int| 0 <= i < records.len() implies #[trigger] records[i].from <= max_node
        && records[i].to <= max_node by {
        assert(recs[i].0 == records[i].from);
    }
    if records.len() > 0 {
        let j = choose|j: int|
            0 <= j < recs.len() && (records_max_node(recs) == #[trigger] recs[j].0 || records_max_node(
                recs,
            ) == recs[j].1);
        let r = records[j];
        assert((r.from, r.to, weight_view(r.weight)) == recs[j]);
        j
    } else {
        0
    }
}

proof fn lemma_fold_first_word(s: Seq<char>, p: int, t: int)
    requires
        0 <= p < s.len(),
        !is_white_space(s[p]),
        forall|q: int| 0 <= q < p ==> is_white_space(#[trigger] s[q]),
        0 <= t <= s.len(),
    ensures
        ({
            let (done, cur) = split_words_fold(s.take(t));
            &&& t <= p ==> done.len() == 0 && cur.len() == 0
            &&& t > p && done.len() == 0 ==> cur.len() > 0 && cur[0] == s[p]
            &&& t > p && done.len() > 0 ==> done[0].len() > 0 && done[0][0] == s[p]
        }),
    decreases t,
{
    if t > 0 {
        lemma_fold_first_word(s, p, t - 1);
        assert(s.take(t).drop_last() =~= s.take(t - 1));
        assert(s.take(t).last() == s[t - 1]);
        if t - 1 < p {
            assert(is_white_space(s[t - 1]));
        }
    }
}

/// The first word of a text whose first character other than white space is
/// `s[p]` begins with `s[p]`.
proof fn lemma_first_word_starts(s: Seq<char>, p: int)
    requires
        0 <= p < s.len(),
        !is_white_space(s[p]),
        forall|q: int| 0 <= q < p ==> is_white_space(#[trigger] s[q]),
    ensures
        split_words(s).len() > 0,
        split_words(s)[0].len() > 0,
        split_words(s)[0][0] == s[p],
{
    lemma_fold_first_word(s, p, s.len() as int);
    assert(s.take(s.len() as int) =~= s);
}

/// A line whose first character other than white space is `#` is a comment,
/// whatever follows the `#`: appended to any lines, it adds no edge and no
/// malformed line to what they read as.
pub proof fn lemma_comment_line_skipped(lines: Seq<Seq<char>>, line: Seq<char>, p: int)
    requires
        0 <= p < line.len(),
        line[p] == '#',
        forall|q: int| 0 <= q < p ==> is_white_space(#[trigger] line[q]),
    ensures
        line_skipped(line),
        line_fault(line) is None,
        scan_failure(lines.push(line)) == scan_failure(lines),
        scan_records(lines.push(line)) == scan_records(lines),
{
    lemma_first_word_starts(line, p);
    assert(lines.push(line).drop_last() =~= lines);
}

/// What a malformed edge line lacks.
pub open spec fn fault_message(fault: EdgeLineFault) -> Seq<char> {
    match fault {
        EdgeLineFault::TooFewValues => "expected at least 2 values"@,
        EdgeLineFault::InvalidSource => "invalid source node"@,
        EdgeLineFault::InvalidTarget => "invalid target node"@,
    }
}

/// The explanation `"line <n>: <what is wrong>"` for a malformed edge line.
pub fn fault_reason(line: usize, fault: EdgeLineFault) -> (r: String)
    ensures
        r@ == "line "@ + decimal(line as nat) + ": "@ + fault_message(fault),
{
    let mut r = String::new();
    r.append("line ");
    push_decimal(&mut r, line);
    r.append(": ");
    match fault {
        EdgeLineFault::TooFewValues => r.append("expected at least 2 values"),
        EdgeLineFault::InvalidSource => r.append("invalid source node"),
        EdgeLineFault::InvalidTarget => r.append("invalid target node"),
    }
    assert(r@ =~= "line "@ + decimal(line as nat) + ": "@ + fault_message(fault));
    r
}

/// Completes the reading of an edge list from its scan.
///
/// `weights[i]` is the weight of the edge of `scan.records[i]` (read from its
/// weight field by the caller), and `first_negative` the position of the first
/// of them that is negative, if any. A negative weight is reported first (its
/// line comes before any malformed line); then a malformed line; otherwise the
/// result is the edges and the node count, one more than the largest node
/// index.
pub fn edgelist_result<W: Copy>(scan: &EdgeListScan, weights: &[W], first_negative: Option<usize>) -> (r: Result<
    (Vec<(u32, u32, W)>, usize),
    GraphError<W>,
>)
    requires
        weights@.len() == scan.records@.len(),
        (first_negative is None || first_negative->0 >= scan.records@.len()) && scan.failure is None
            ==> scan.max_node < u32::MAX,
    ensures
        first_negative matches Some(k) && k < scan.records@.len() ==> r == Err::<
            (Vec<(u32, u32, W)>, usize),
            GraphError<W>,
        >(
            GraphError::NegativeWeight {
                from: scan.records@[first_negative->0 as int].from,
                to: scan.records@[first_negative->0 as int].to,
                weight: weights@[first_negative->0 as int],
            },
        ),
        (first_negative is None || first_negative->0 >= scan.records@.len()) ==> match scan.failure {
            Some((n, f)) => (r matches Err(GraphError::InvalidGraph { reason }) && reason@ == "line "@
                + decimal(n as nat) + ": "@ + fault_message(f)),
            None => (r matches Ok((edges, count)) && count == scan.max_node + 1 && edges@.len()
                == scan.records@.len() && forall|i: int|
                0 <= i < edges@.len() ==> #[trigger] edges@[i] == (
                    scan.records@[i].from,
                    scan.records@[i].to,
                    weights@[i],
                )),
        },
{
    if let Some(k) = first_negative {
        if k < scan.records.len() {
            return Err(
                GraphError::NegativeWeight {
                    from: scan.records[k].from,
                    to: scan.records[k].to,
                    weight: weights[k],
                },
            );
        }
    }
    match scan.failure {
        Some((n, f)) => Err(GraphError::InvalidGraph { reason: fault_reason(n, f) }),
        None => {
            let mut edges: Vec<(u32, u32, W)> = Vec::new();
            let len = scan.records.len();
            let mut i: usize = 0;
            while i < len
                invariant
                    i <= len,
                    len == scan.records@.len(),
                    weights@.len() == len,
                    edges@.len() == i,
                    forall|j: int|
                        0 <= j < i ==> #[trigger] edges@[j] == (
                            scan.records@[j].from,
                            scan.records@[j].to,
                            weights@[j],
                        ),
                decreases len - i,
            {
                edges.push((scan.records[i].from, scan.records[i].to, weights[i]));
                i = i + 1;
            }
            Ok((edges, (scan.max_node + 1) as usize))
        },
    }
}

} // verus!
