//! Embeddings read from word2vec-style text lines.
//!
//! The first line is a header `<node count> <dimension>`; each later
//! line holds an unsigned node identity followed by the vector's
//! scalars, all space-separated.  A caller-supplied parser turns each
//! scalar field into a value (the scalars are real numbers, which the
//! verified core does not handle itself).  Reading stops at the first
//! bad line.  Opening the file and cutting its text into lines is the
//! caller's side of the split.

use crate::embedding::Embedding;
use crate::embedding::EmbeddingModel;
use crate::network_reader::weight_none_witness;
use crate::network_reader::weight_some_witness;
use crate::network_reader::ReaderError;
use crate::parse::parse_usize;
use crate::parse::parses_as_uint;
use crate::parse::split_chars;
use crate::parse::split_on;
use crate::parse::uint_value;
use crate::parse::views_of;
use vstd::prelude::*;
use vstd::string::StringExecFns;

verus! {

/// Whether the header line is good: exactly two fields, the second
/// reading as the dimension.  The first field, the declared node
/// count, is carried but never checked.
pub open spec fn header_ok(h: Seq<char>) -> bool {
    &&& split_on(h, ' ').len() == 2
    &&& parses_as_uint(split_on(h, ' ')[1])
}

/// The dimension a good header declares.
pub open spec fn header_dim(h: Seq<char>) -> usize {
    uint_value(split_on(h, ' ')[1]) as usize
}

/// The detail text a bad header fails with.
pub open spec fn header_err(h: Seq<char>) -> Seq<char> {
    if split_on(h, ' ').len() != 2 {
        "Header should contain 2 elements: number of nodes and embedding dimension"@
    } else {
        "Couldn't parse int"@
    }
}

/// The space-separated fields of a vector line.
pub open spec fn vec_line_fields(line: Seq<char>) -> Seq<Seq<char>> {
    split_on(line, ' ')
}

/// Whether a vector line is structurally good for dimension `dim`:
/// one identity field and `dim` scalar fields, the identity reading as
/// an unsigned integer.
pub open spec fn vec_line_ok(line: Seq<char>, dim: usize) -> bool {
    &&& vec_line_fields(line).len() == dim + 1
    &&& parses_as_uint(vec_line_fields(line)[0])
}

/// The node identity of a structurally good vector line.
pub open spec fn vec_line_node(line: Seq<char>) -> usize {
    uint_value(vec_line_fields(line)[0]) as usize
}

/// The detail text a structurally bad vector line fails with.
pub open spec fn vec_line_err(line: Seq<char>, dim: usize) -> Seq<char> {
    if vec_line_fields(line).len() != dim + 1 {
        "Not enough elements"@
    } else {
        "Couldn't parse int"@
    }
}

/// The scalar parser can answer `vs`, field by field, for the scalar
/// fields of `line`.
pub open spec fn line_scalars_witness<S, F: Fn(Vec<char>) -> Option<S>>(
    f: F,
    line: Seq<char>,
    dim: usize,
    vs: Seq<S>,
) -> bool {
    &&& vs.len() == dim
    &&& (forall|c: int|
        0 <= c < dim ==> weight_some_witness(f, vec_line_fields(line)[c + 1], #[trigger] vs[c]))
}

/// The scalar parser can answer some vector for the line.
pub open spec fn line_readable<S, F: Fn(Vec<char>) -> Option<S>>(
    f: F,
    line: Seq<char>,
    dim: usize,
) -> bool {
    exists|vs: Seq<S>| #[trigger] line_scalars_witness(f, line, dim, vs)
}

/// The key-to-vector map built by storing one vector per line, in
/// order, later lines overwriting earlier ones with an equal identity.
pub open spec fn built_embedding<S>(vlines: Seq<Seq<char>>, vss: Seq<Seq<S>>) -> Map<
    usize,
    Seq<S>,
>
    decreases vlines.len(),
{
    if vlines.len() == 0 {
        Map::empty()
    } else {
        built_embedding(vlines.drop_last(), vss.drop_last()).insert(
            vec_line_node(vlines.last()),
            vss.last(),
        )
    }
}

/// The header line of a listing: its first line, or the empty line
/// when the listing holds none (a missing header is a bad header).
pub open spec fn file_header(lseq: Seq<Seq<char>>) -> Seq<char> {
    if lseq.len() == 0 {
        Seq::empty()
    } else {
        lseq[0]
    }
}

/// What a failed read promises: a bad (or missing) header reported
/// with its detail, or a good header, every vector line before `i`
/// fully read, and line `i` failed with exactly the reported detail.
pub open spec fn w2v_read_err<S, F: Fn(Vec<char>) -> Option<S>>(
    lseq: Seq<Seq<char>>,
    f: F,
    msg: Seq<char>,
    i: int,
) -> bool {
    &&& 0 <= i
    &&& if i == 0 {
        !header_ok(file_header(lseq)) && msg == header_err(file_header(lseq))
    } else {
        &&& i < lseq.len()
        &&& header_ok(lseq[0])
        &&& (forall|j: int| 1 <= j < i ==> vec_line_ok(#[trigger] lseq[j], header_dim(lseq[0])))
        &&& (forall|j: int|
            1 <= j < i ==> line_readable::<S, F>(f, #[trigger] lseq[j], header_dim(lseq[0])))
        &&& if vec_line_ok(lseq[i], header_dim(lseq[0])) {
            (exists|k: int|
                0 <= k < header_dim(lseq[0]) && #[trigger] weight_none_witness::<S, F>(
                    f,
                    vec_line_fields(lseq[i])[k + 1],
                )) && msg == "Couldn't parse float"@
        } else {
            msg == vec_line_err(lseq[i], header_dim(lseq[0]))
        }
    }
}

/// What a successful read promises: a good header, every vector line
/// structurally good with scalars the parser answered, and the store
/// the fold of the lines in order at the header's dimension.
pub open spec fn w2v_read_ok<S, F: Fn(Vec<char>) -> Option<S>>(
    lseq: Seq<Seq<char>>,
    f: F,
    m: EmbeddingModel<usize, S>,
    vss: Seq<Seq<S>>,
) -> bool {
    &&& lseq.len() >= 1
    &&& header_ok(lseq[0])
    &&& vss.len() == lseq.len() - 1
    &&& (forall|j: int|
        0 <= j < vss.len() ==> vec_line_ok(#[trigger] lseq[j + 1], header_dim(lseq[0])))
    &&& (forall|j: int|
        0 <= j < vss.len() ==> line_scalars_witness(
            f,
            #[trigger] lseq[j + 1],
            header_dim(lseq[0]),
            vss[j],
        ))
    &&& m.dim == header_dim(lseq[0])
    &&& m.vecs == built_embedding(lseq.skip(1), vss)
}

/// What `read_lines` promises of its result.
pub open spec fn w2v_read_result<S: Copy, F: Fn(Vec<char>) -> Option<S>>(
    lines: Seq<Vec<char>>,
    f: F,
    r: Result<Embedding<usize, S>, ReaderError>,
) -> bool {
    match r {
        Ok(emb) => emb.wf() && exists|vss: Seq<Seq<S>>|
            #[trigger] w2v_read_ok(views_of(lines), f, emb@, vss),
        Err(ReaderError::MalformedFileFormat(msg)) => exists|i: int|
            #[trigger] w2v_read_err::<S, F>(views_of(lines), f, msg@, i),
        Err(ReaderError::FileNotFound) => false,
    }
}

/// A reader of word2vec-style embedding-vector text.
pub struct W2VEmbeddingVectorsReader {}

impl W2VEmbeddingVectorsReader {
    /// A reader; it carries no configuration.
    pub fn new() -> (r: W2VEmbeddingVectorsReader) {
        W2VEmbeddingVectorsReader {  }
    }

    /// Read an embedding from header and vector lines, each scalar
    /// field read by `parse_scalar`.  Text without lines has no header
    /// and is refused like any bad header.
    pub fn read_lines<S: Copy, F: Fn(Vec<char>) -> Option<S>>(
        &self,
        lines: &Vec<Vec<char>>,
        parse_scalar: F,
    ) -> (r: Result<Embedding<usize, S>, ReaderError>)
        requires
            forall|v: Vec<char>| call_requires(parse_scalar, (v,)),
        ensures
            w2v_read_result(lines@, parse_scalar, r),
    {
        let ghost lseq = views_of(lines@);
        if lines.len() == 0 {
            let e = ReaderError::MalformedFileFormat(
                String::from_str(
                    "Header should contain 2 elements: number of nodes and embedding dimension",
                ),
            );
            proof {
                let m = e->MalformedFileFormat_0;
                assert(file_header(lseq) == Seq::<char>::empty());
                assert(split_on(Seq::<char>::empty(), ' ') =~= seq![Seq::<char>::empty()]);
                assert(!header_ok(file_header(lseq)));
                assert(m@ == header_err(file_header(lseq)));
                assert(w2v_read_err::<S, F>(views_of(lines@), parse_scalar, m@, 0));
            }
            return Err(e);
        }
        let header_fields = split_chars(&lines[0], ' ');
        proof {
            assert(lseq[0] == lines@[0]@);
            assert(header_fields@.map_values(|f: Vec<char>| f@) == split_on(lseq[0], ' '));
        }
        if header_fields.len() != 2 {
            let e = ReaderError::MalformedFileFormat(
                String::from_str(
                    "Header should contain 2 elements: number of nodes and embedding dimension",
                ),
            );
            proof {
                let m = e->MalformedFileFormat_0;
                assert(file_header(lseq) == lseq[0]);
                assert(split_on(lseq[0], ' ').len() == header_fields@.len());
                assert(w2v_read_err::<S, F>(views_of(lines@), parse_scalar, m@, 0));
            }
            return Err(e);
        }
        let dim = match parse_usize(&header_fields[1]) {
            Some(v) => v,
            None => {
                let e = ReaderError::MalformedFileFormat(String::from_str("Couldn't parse int"));
                proof {
                    let m = e->MalformedFileFormat_0;
                    assert(file_header(lseq) == lseq[0]);
                    assert(header_fields@[1]@ == split_on(lseq[0], ' ')[1]);
                    assert(!header_ok(lseq[0]));
                    assert(w2v_read_err::<S, F>(views_of(lines@), parse_scalar, m@, 0));
                }
                return Err(e);
            },
        };
        proof {
            assert(header_fields@[1]@ == split_on(lseq[0], ' ')[1]);
            assert(header_ok(lseq[0]));
            assert(dim == header_dim(lseq[0]));
        }
        let mut emb: Embedding<usize, S> = Embedding::new(dim);
        let ghost mut vss: Seq<Seq<S>> = Seq::empty();
        let mut j: usize = 1;
        proof {
            assert(lseq.subrange(1, 1) =~= Seq::<Seq<char>>::empty());
            assert(emb@.vecs =~= built_embedding(lseq.subrange(1, 1), vss));
        }
        while j < lines.len()
            invariant
                forall|v: Vec<char>| call_requires(parse_scalar, (v,)),
                1 <= j <= lines@.len(),
                lseq == views_of(lines@),
                lseq.len() >= 1,
                header_ok(lseq[0]),
                dim == header_dim(lseq[0]),
                emb.wf(),
                emb@.dim == dim,
                vss.len() == j - 1,
                forall|p: int| 1 <= p < j ==> vec_line_ok(#[trigger] lseq[p], dim),
                forall|p: int|
                    1 <= p < j ==> line_scalars_witness(
                        parse_scalar,
                        #[trigger] lseq[p],
                        dim,
                        vss[p - 1],
                    ),
                emb@.vecs == built_embedding(lseq.subrange(1, j as int), vss),
            decreases lines@.len() - j,
        {
            proof {
                assert(lseq[j as int] == lines@[j as int]@);
            }
            let mut fields = split_chars(&lines[j], ' ');
            let ghost sfields = split_on(lseq[j as int], ' ');
            proof {
                assert(fields@.map_values(|f: Vec<char>| f@) == sfields);
                crate::parse::lemma_split_on_nonempty(lseq[j as int], ' ');
            }
            if fields.len() - 1 != dim {
                let e = ReaderError::MalformedFileFormat(
                    String::from_str("Not enough elements"),
                );
                proof {
                    let m = e->MalformedFileFormat_0;
                    assert(sfields.len() == fields@.len());
                    assert(!vec_line_ok(lseq[j as int], dim));
                    assert(m@ == vec_line_err(lseq[j as int], dim));
                    assert(w2v_read_err::<S, F>(
                        views_of(lines@),
                        parse_scalar,
                        m@,
                        j as int,
                    ));
                }
                return Err(e);
            }
            let node = match parse_usize(&fields[0]) {
                Some(v) => v,
                None => {
                    let e = ReaderError::MalformedFileFormat(
                        String::from_str("Couldn't parse int"),
                    );
                    proof {
                        let m = e->MalformedFileFormat_0;
                        assert(fields@[0]@ == sfields[0]);
                        assert(!vec_line_ok(lseq[j as int], dim));
                        assert(m@ == vec_line_err(lseq[j as int], dim));
                        assert(w2v_read_err::<S, F>(
                            views_of(lines@),
                            parse_scalar,
                            m@,
                            j as int,
                        ));
                    }
                    return Err(e);
                },
            };
            proof {
                assert(fields@[0]@ == sfields[0]);
                assert(vec_line_ok(lseq[j as int], dim));
                assert(node == vec_line_node(lseq[j as int]));
            }
            let ghost allf = fields@;
            let _ = fields.remove(0);
            let mut vector: Vec<S> = Vec::new();
            let mut c: usize = 0;
            proof {
                assert(fields@ =~= allf.skip(1));
            }
            while c < dim
                invariant
                    forall|v: Vec<char>| call_requires(parse_scalar, (v,)),
                    c <= dim,
                    allf.len() == dim + 1,
                    allf.map_values(|f: Vec<char>| f@) == sfields,
                    sfields == vec_line_fields(lseq[j as int]),
                    1 <= j < lines@.len(),
                    lseq == views_of(lines@),
                    lseq.len() >= 1,
                    header_ok(lseq[0]),
                    dim == header_dim(lseq[0]),
                    vec_line_ok(lseq[j as int], dim),
                    vss.len() == j - 1,
                    forall|p: int| 1 <= p < j ==> vec_line_ok(#[trigger] lseq[p], dim),
                    forall|p: int|
                        1 <= p < j ==> line_scalars_witness(
                            parse_scalar,
                            #[trigger] lseq[p],
                            dim,
                            vss[p - 1],
                        ),
                    fields@ == allf.skip(c as int + 1),
                    vector@.len() == c,
                    forall|p: int|
                        0 <= p < c ==> weight_some_witness(
                            parse_scalar,
                            vec_line_fields(lseq[j as int])[p + 1],
                            #[trigger] vector@[p],
                        ),
                decreases dim - c,
            {
                let fc = fields.remove(0);
                let ghost gv = fc;
                proof {
                    assert(gv == allf.skip(c as int + 1)[0]);
                    assert(gv == allf[c as int + 1]);
                    assert(gv@ == sfields[c as int + 1]);
                    assert(fields@ =~= allf.skip(c as int + 2));
                }
                match parse_scalar(fc) {
                    Some(x) => {
                        vector.push(x);
                        proof {
                            assert(weight_some_witness(
                                parse_scalar,
                                vec_line_fields(lseq[j as int])[c as int + 1],
                                x,
                            ));
                        }
                    },
                    None => {
                        let e = ReaderError::MalformedFileFormat(
                            String::from_str("Couldn't parse float"),
                        );
                        proof {
                            let m = e->MalformedFileFormat_0;
                            assert(weight_none_witness::<S, F>(
                                parse_scalar,
                                vec_line_fields(lseq[j as int])[c as int + 1],
                            ));
                            assert forall|p: int| 1 <= p < j implies line_readable::<S, F>(
                                parse_scalar,
                                #[trigger] lseq[p],
                                dim,
                            ) by {
                                assert(line_scalars_witness(
                                    parse_scalar,
                                    lseq[p],
                                    dim,
                                    vss[p - 1],
                                ));
                            }
                            assert(w2v_read_err::<S, F>(
                                views_of(lines@),
                                parse_scalar,
                                m@,
                                j as int,
                            ));
                        }
                        return Err(e);
                    },
                }
                c += 1;
            }
            let _ = emb.add_vector(node, vector.as_slice());
            proof {
                let ghost prev_vss = vss;
                vss = vss.push(vector@);
                assert(line_scalars_witness(parse_scalar, lseq[j as int], dim, vector@));
                assert(lseq.subrange(1, j as int + 1).drop_last() =~= lseq.subrange(
                    1,
                    j as int,
                ));
                assert(vss.drop_last() =~= prev_vss);
                assert(lseq.subrange(1, j as int + 1).last() == lseq[j as int]);
                assert(emb@.vecs =~= built_embedding(lseq.subrange(1, j as int + 1), vss));
                assert forall|p: int| 1 <= p < j + 1 implies line_scalars_witness(
                    parse_scalar,
                    #[trigger] lseq[p],
                    dim,
                    vss[p - 1],
                ) by {
                    if p < j {
                        assert(line_scalars_witness(
                            parse_scalar,
                            lseq[p],
                            dim,
                            prev_vss[p - 1],
                        ));
                        assert(vss[p - 1] == prev_vss[p - 1]);
                    }
                }
            }
            j += 1;
        }
        let res: Result<Embedding<usize, S>, ReaderError> = Ok(emb);
        proof {
            let e2 = res->Ok_0;
            assert(lseq.subrange(1, lines@.len() as int) =~= lseq.skip(1));
            assert forall|p: int| 0 <= p < vss.len() implies vec_line_ok(
                #[trigger] lseq[p + 1],
                header_dim(lseq[0]),
            ) by {
                assert(vec_line_ok(lseq[p + 1], dim));
            }
            assert forall|p: int| 0 <= p < vss.len() implies line_scalars_witness(
                parse_scalar,
                #[trigger] lseq[p + 1],
                header_dim(lseq[0]),
                vss[p],
            ) by {
                assert(line_scalars_witness(parse_scalar, lseq[p + 1], dim, vss[p]));
            }
            assert(w2v_read_ok(views_of(lines@), parse_scalar, e2@, vss));
        }
        res
    }
}

} // verus!
