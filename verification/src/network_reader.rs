//! Edge-list networks read from text lines.
//!
//! One edge per line, fields split on a configurable single-character
//! delimiter: an unsigned from-identity, an unsigned to-identity, and a
//! weight field that a caller-supplied parser turns into the payload
//! (the weight is a real number, which the verified core does not
//! handle itself).  Reading stops at the first bad line: a short line,
//! an unreadable identity, or a weight the parser refuses.  Opening the
//! file and cutting its text into lines is the caller's side of the
//! split.

use crate::network::Network;
use crate::network::lemma_add_edge_growth;
use crate::network::NetworkModel;
use crate::parse::parse_usize;
use crate::parse::parses_as_uint;
use crate::parse::split_chars;
use crate::parse::split_on;
use crate::parse::uint_value;
use crate::parse::views_of;
use vstd::prelude::*;
use vstd::string::StringExecFns;

verus! {

/// The errors of the text readers.
#[derive(Debug, PartialEq)]
pub enum ReaderError {
    /// The file could not be found.
    FileNotFound,
    /// The text does not follow the expected format; the detail says
    /// what was missing or unreadable.
    MalformedFileFormat(String),
}

/// Whether an edge line is structurally good: at least three fields,
/// the first two reading as unsigned integers.
pub open spec fn edge_line_ok(line: Seq<char>, sep: char) -> bool {
    &&& split_on(line, sep).len() >= 3
    &&& parses_as_uint(split_on(line, sep)[0])
    &&& parses_as_uint(split_on(line, sep)[1])
}

/// The from-identity of a structurally good edge line.
pub open spec fn edge_line_from(line: Seq<char>, sep: char) -> usize {
    uint_value(split_on(line, sep)[0]) as usize
}

/// The to-identity of a structurally good edge line.
pub open spec fn edge_line_to(line: Seq<char>, sep: char) -> usize {
    uint_value(split_on(line, sep)[1]) as usize
}

/// The unread weight field of an edge line.
pub open spec fn edge_line_weight_field(line: Seq<char>, sep: char) -> Seq<char> {
    split_on(line, sep)[2]
}

/// The detail text a structurally bad edge line fails with.
pub open spec fn edge_line_error(line: Seq<char>, sep: char) -> Seq<char> {
    if split_on(line, sep).len() < 3 {
        "Not enough elements"@
    } else {
        "Couldn't parse int"@
    }
}

/// The network built by inserting one edge per line, in order, with
/// the given weights.
pub open spec fn built_network<E>(
    directed: bool,
    lines: Seq<Seq<char>>,
    sep: char,
    ws: Seq<E>,
) -> NetworkModel<usize, E>
    decreases lines.len(),
{
    if lines.len() == 0 {
        NetworkModel::empty(directed)
    } else {
        built_network(directed, lines.drop_last(), sep, ws.drop_last()).add_edge(
            edge_line_from(lines.last(), sep),
            edge_line_to(lines.last(), sep),
            ws.last(),
        )
    }
}

/// The weight parser can answer `Some(w)` for the field text `wf`.
pub open spec fn weight_some_witness<E, F: Fn(Vec<char>) -> Option<E>>(
    f: F,
    wf: Seq<char>,
    w: E,
) -> bool {
    exists|v: Vec<char>| v@ == wf && call_ensures(f, (v,), Some(w))
}

/// The weight parser can refuse the field text `wf`.
pub open spec fn weight_none_witness<E, F: Fn(Vec<char>) -> Option<E>>(
    f: F,
    wf: Seq<char>,
) -> bool {
    exists|v: Vec<char>| v@ == wf && call_ensures(f, (v,), None::<E>)
}

/// The weight parser can answer some weight for the field text `wf`.
pub open spec fn weight_readable<E, F: Fn(Vec<char>) -> Option<E>>(f: F, wf: Seq<char>) -> bool {
    exists|w: E| weight_some_witness(f, wf, w)
}

/// What a successful read promises: every line structurally good, each
/// weight an answer of the parser on its line's weight field, and the
/// network the fold of the edges in order.
pub open spec fn edge_read_ok<E, F: Fn(Vec<char>) -> Option<E>>(
    lines: Seq<Seq<char>>,
    sep: char,
    directed: bool,
    f: F,
    m: NetworkModel<usize, E>,
    ws: Seq<E>,
) -> bool {
    &&& ws.len() == lines.len()
    &&& (forall|j: int| 0 <= j < lines.len() ==> edge_line_ok(#[trigger] lines[j], sep))
    &&& (forall|j: int|
        0 <= j < lines.len() ==> weight_some_witness(
            f,
            edge_line_weight_field(#[trigger] lines[j], sep),
            ws[j],
        ))
    &&& m == built_network(directed, lines, sep, ws)
}

/// What a failed read promises: every line before `i` was fully read
/// (good structure, a parsed weight), and line `i` failed with exactly
/// the reported detail.
pub open spec fn edge_read_err<E, F: Fn(Vec<char>) -> Option<E>>(
    lines: Seq<Seq<char>>,
    sep: char,
    f: F,
    msg: Seq<char>,
    i: int,
) -> bool {
    &&& 0 <= i < lines.len()
    &&& (forall|j: int| 0 <= j < i ==> edge_line_ok(#[trigger] lines[j], sep))
    &&& (forall|j: int|
        0 <= j < i ==> weight_readable::<E, F>(
            f,
            edge_line_weight_field(#[trigger] lines[j], sep),
        ))
    &&& if edge_line_ok(lines[i], sep) {
        weight_none_witness::<E, F>(f, edge_line_weight_field(lines[i], sep)) && msg
            == "Couldn't parse float"@
    } else {
        msg == edge_line_error(lines[i], sep)
    }
}

/// What `read_lines` promises of its result.
pub open spec fn read_lines_result<E: Copy, F: Fn(Vec<char>) -> Option<E>>(
    lines: Seq<Vec<char>>,
    sep: char,
    directed: bool,
    f: F,
    r: Result<Network<usize, E>, ReaderError>,
) -> bool {
    match r {
        Ok(net) => net.wf() && exists|ws: Seq<E>|
            #[trigger] edge_read_ok(views_of(lines), sep, directed, f, net@, ws),
        Err(ReaderError::MalformedFileFormat(msg)) => exists|i: int|
            #[trigger] edge_read_err(views_of(lines), sep, f, msg@, i),
        Err(ReaderError::FileNotFound) => false,
    }
}

/// A prefix for which the read succeeded consists of fully read lines.
proof fn lemma_read_prefix<E, F: Fn(Vec<char>) -> Option<E>>(
    lseq: Seq<Seq<char>>,
    sep: char,
    directed: bool,
    f: F,
    m: NetworkModel<usize, E>,
    ws: Seq<E>,
    j: int,
)
    requires
        0 <= j <= lseq.len(),
        edge_read_ok(lseq.take(j), sep, directed, f, m, ws),
    ensures
        forall|p: int| 0 <= p < j ==> edge_line_ok(#[trigger] lseq[p], sep),
        forall|p: int|
            0 <= p < j ==> weight_readable::<E, F>(
                f,
                edge_line_weight_field(#[trigger] lseq[p], sep),
            ),
{
    assert forall|p: int| 0 <= p < j implies edge_line_ok(#[trigger] lseq[p], sep) by {
        assert(lseq.take(j)[p] == lseq[p]);
        assert(edge_line_ok(lseq.take(j)[p], sep));
    }
    assert forall|p: int| 0 <= p < j implies weight_readable::<E, F>(
        f,
        edge_line_weight_field(#[trigger] lseq[p], sep),
    ) by {
        assert(lseq.take(j)[p] == lseq[p]);
        assert(weight_some_witness(f, edge_line_weight_field(lseq.take(j)[p], sep), ws[p]));
        assert(weight_some_witness(f, edge_line_weight_field(lseq[p], sep), ws[p]));
    }
}

/// A reader of edge-list text with a configurable field delimiter,
/// producing a directed or an undirected network.
pub struct EdgeListReader {
    separator: char,
    directed: bool,
}

impl EdgeListReader {
    /// The field delimiter.
    pub closed spec fn spec_separator(self) -> char {
        self.separator
    }

    /// Whether the produced network is directed.
    pub closed spec fn spec_directed(self) -> bool {
        self.directed
    }

    /// A reader splitting fields on `separator` and producing a network
    /// of the given directedness.
    pub fn new(separator: char, directed: bool) -> (r: EdgeListReader)
        ensures
            r.spec_separator() == separator,
            r.spec_directed() == directed,
    {
        EdgeListReader { separator, directed }
    }

    /// Read a network from edge-list lines, one edge per line, the
    /// weight field read by `parse_weight`.
    pub fn read_lines<E: Copy, F: Fn(Vec<char>) -> Option<E>>(
        &self,
        lines: &Vec<Vec<char>>,
        parse_weight: F,
    ) -> (r: Result<Network<usize, E>, ReaderError>)
        requires
            forall|v: Vec<char>| call_requires(parse_weight, (v,)),
            lines@.len() <= 0x7fff_fffd,
        ensures
            read_lines_result(
                lines@,
                self.spec_separator(),
                self.spec_directed(),
                parse_weight,
                r,
            ),
    {
        let ghost lseq = views_of(lines@);
        let mut net: Network<usize, E> = Network::new(self.directed);
        let ghost mut ws: Seq<E> = Seq::empty();
        let mut j: usize = 0;
        proof {
            assert(lseq.take(0) =~= Seq::<Seq<char>>::empty());
        }
        while j < lines.len()
            invariant
                forall|v: Vec<char>| call_requires(parse_weight, (v,)),
                lines@.len() <= 0x7fff_fffd,
                j <= lines@.len(),
                lseq == views_of(lines@),
                net.wf(),
                ws.len() == j,
                edge_read_ok(
                    lseq.take(j as int),
                    self.spec_separator(),
                    self.spec_directed(),
                    parse_weight,
                    net@,
                    ws,
                ),
                net@.nodes.len() <= 2 * j,
                net@.records.len() <= 2 * j,
            decreases lines@.len() - j,
        {
            proof {
                assert(lseq[j as int] == lines@[j as int]@);
            }
            let line = &lines[j];
            let mut fields = split_chars(line, self.separator);
            proof {
                assert(fields@.map_values(|f: Vec<char>| f@) == split_on(
                    lseq[j as int],
                    self.spec_separator(),
                ));
            }
            if fields.len() < 3 {
                let e = ReaderError::MalformedFileFormat(String::from_str("Not enough elements"));
                proof {
                    let m = e->MalformedFileFormat_0;
                    assert(split_on(lseq[j as int], self.spec_separator()).len() == fields@.len());
                    assert(m@ == edge_line_error(lseq[j as int], self.spec_separator()));
                    lemma_read_prefix(
                        lseq,
                        self.spec_separator(),
                        self.spec_directed(),
                        parse_weight,
                        net@,
                        ws,
                        j as int,
                    );
                    assert(edge_read_err(
                        views_of(lines@),
                        self.spec_separator(),
                        parse_weight,
                        m@,
                        j as int,
                    ));
                }
                return Err(e);
            }
            proof {
                assert(fields@[0]@ == split_on(lseq[j as int], self.spec_separator())[0]);
                assert(fields@[1]@ == split_on(lseq[j as int], self.spec_separator())[1]);
                assert(fields@[2]@ == split_on(lseq[j as int], self.spec_separator())[2]);
            }
            let from_parsed = parse_usize(&fields[0]);
            let to_parsed = parse_usize(&fields[1]);
            let (from_node, to_node) = match (from_parsed, to_parsed) {
                (Some(a), Some(b)) => (a, b),
                _ => {
                    let e = ReaderError::MalformedFileFormat(
                        String::from_str("Couldn't parse int"),
                    );
                    proof {
                        let m = e->MalformedFileFormat_0;
                        assert(!edge_line_ok(lseq[j as int], self.spec_separator()));
                        assert(m@ == edge_line_error(lseq[j as int], self.spec_separator()));
                        lemma_read_prefix(
                            lseq,
                            self.spec_separator(),
                            self.spec_directed(),
                            parse_weight,
                            net@,
                            ws,
                            j as int,
                        );
                        assert(edge_read_err(
                            views_of(lines@),
                            self.spec_separator(),
                            parse_weight,
                            m@,
                            j as int,
                        ));
                    }
                    return Err(e);
                },
            };
            let wfield = fields.remove(2);
            let ghost gv = wfield;
            proof {
                assert(gv@ == edge_line_weight_field(lseq[j as int], self.spec_separator()));
            }
            let edge_data: E = match parse_weight(wfield) {
                Some(w) => w,
                None => {
                    let e = ReaderError::MalformedFileFormat(
                        String::from_str("Couldn't parse float"),
                    );
                    proof {
                        let m = e->MalformedFileFormat_0;
                        assert(weight_none_witness::<E, F>(
                            parse_weight,
                            edge_line_weight_field(lseq[j as int], self.spec_separator()),
                        ));
                        lemma_read_prefix(
                            lseq,
                            self.spec_separator(),
                            self.spec_directed(),
                            parse_weight,
                            net@,
                            ws,
                            j as int,
                        );
                        assert(edge_read_err(
                            views_of(lines@),
                            self.spec_separator(),
                            parse_weight,
                            m@,
                            j as int,
                        ));
                    }
                    return Err(e);
                },
            };
            proof {
                assert(weight_some_witness(
                    parse_weight,
                    edge_line_weight_field(lseq[j as int], self.spec_separator()),
                    edge_data,
                ));
                assert(from_node == edge_line_from(lseq[j as int], self.spec_separator()));
                assert(to_node == edge_line_to(lseq[j as int], self.spec_separator()));
                assert(edge_line_ok(lseq[j as int], self.spec_separator()));
            }
            let ghost mid = net@;
            net.add_edge(from_node, to_node, edge_data);
            proof {
                lemma_add_edge_growth(mid, from_node, to_node, edge_data);
                let ghost prev_ws = ws;
                ws = ws.push(edge_data);
                assert(lseq.take(j as int + 1).drop_last() =~= lseq.take(j as int));
                assert(ws.drop_last() =~= prev_ws);
                assert(lseq.take(j as int + 1).last() == lseq[j as int]);
                assert(ws.last() == edge_data);
                assert(net@ == built_network(
                    self.spec_directed(),
                    lseq.take(j as int + 1),
                    self.spec_separator(),
                    ws,
                ));
                assert(net@.nodes.len() <= mid.nodes.len() + 2);
                assert(net@.records.len() <= mid.records.len() + 2);
                assert forall|p: int|
                    0 <= p < j + 1 implies edge_line_ok(
                    #[trigger] lseq.take(j as int + 1)[p],
                    self.spec_separator(),
                ) by {
                    assert(lseq.take(j as int + 1)[p] == lseq[p]);
                    if p < j {
                        assert(edge_line_ok(lseq.take(j as int)[p], self.spec_separator()));
                    }
                }
                assert forall|p: int|
                    0 <= p < j + 1 implies weight_some_witness(
                    parse_weight,
                    edge_line_weight_field(
                        #[trigger] lseq.take(j as int + 1)[p],
                        self.spec_separator(),
                    ),
                    ws[p],
                ) by {
                    assert(lseq.take(j as int + 1)[p] == lseq[p]);
                    if p < j {
                        assert(weight_some_witness(
                            parse_weight,
                            edge_line_weight_field(
                                lseq.take(j as int)[p],
                                self.spec_separator(),
                            ),
                            prev_ws[p],
                        ));
                        assert(ws[p] == prev_ws[p]);
                    }
                }
                assert(edge_read_ok(
                    lseq.take(j as int + 1),
                    self.spec_separator(),
                    self.spec_directed(),
                    parse_weight,
                    net@,
                    ws,
                ));
            }
            j += 1;
        }
        let res: Result<Network<usize, E>, ReaderError> = Ok(net);
        proof {
            let n2 = res->Ok_0;
            assert(lseq.take(lines@.len() as int) =~= lseq);
            assert(edge_read_ok(
                views_of(lines@),
                self.spec_separator(),
                self.spec_directed(),
                parse_weight,
                n2@,
                ws,
            ));
        }
        res
    }
}

} // verus!
