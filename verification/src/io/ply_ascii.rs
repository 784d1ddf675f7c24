//! ASCII PLY bodies. The body is split into whitespace-separated tokens;
//! what a numeric token reads as (an index, a count, a coordinate) comes with
//! the token, and the rows are read from the tokens in order.
use vstd::prelude::*;
use super::ply::{
    Elem, ElemV, PlyError, PlyErr, PlyMesh, PlyMeshV, PlyScalar, PlyType, PlyVertex, PropV, Prop,
    RowPlan, elems_view, face_word, has_list, is_word, lemma_first_list, lemma_xyz, plan_fits,
    prop_indices, prop_indices_of, props_view, push_face, pushed_face, result_matches, vertex_name,
    vertex_word, xyz, xyz_names,
};

verus! {

/// What a numeric token reads as: the number converted to a signed index, to
/// a count (negative numbers count as zero), and to the bits of the nearest
/// `f32`.
#[derive(Clone, Copy, PartialEq, Eq, Debug, Structural)]
pub struct AsciiNum {
    pub as_i64: i64,
    pub as_usize: usize,
    pub f32_bits: u32,
}

/// A token of an ASCII body and, when it is a number, what it reads as.
#[derive(Clone, Debug)]
pub struct AsciiToken {
    pub text: Vec<char>,
    pub value: Option<AsciiNum>,
}

pub struct AsciiTokenV {
    pub text: Seq<char>,
    pub value: Option<AsciiNum>,
}

impl View for AsciiToken {
    type V = AsciiTokenV;

    open spec fn view(&self) -> AsciiTokenV {
        AsciiTokenV { text: self.text@, value: self.value }
    }
}

pub open spec fn tokens_view(t: Seq<AsciiToken>) -> Seq<AsciiTokenV> {
    t.map_values(|x: AsciiToken| x@)
}

/// The number at token `i`: `Truncated` past the last token,
/// `InvalidNumber` on a token that is not a number.
pub open spec fn num_at(toks: Seq<AsciiTokenV>, i: int) -> Result<AsciiNum, PlyErr> {
    if i < 0 || i >= toks.len() {
        Err(PlyErr::Truncated)
    } else {
        match toks[i].value {
            None => Err(PlyErr::InvalidNumber(toks[i].text)),
            Some(n) => Ok(n),
        }
    }
}

/// The `n` numbers from token `i` on; the first that fails is the error.
pub open spec fn nums_at(toks: Seq<AsciiTokenV>, i: int, n: int) -> Result<Seq<AsciiNum>, PlyErr>
    decreases n,
{
    if n <= 0 {
        Ok(seq![])
    } else {
        match nums_at(toks, i, n - 1) {
            Err(e) => Err(e),
            Ok(v) => match num_at(toks, i + n - 1) {
                Err(e) => Err(e),
                Ok(x) => Ok(v.push(x)),
            },
        }
    }
}

/// A coordinate read from an ASCII body.
pub open spec fn coord(n: AsciiNum) -> PlyScalar {
    PlyScalar { ty: PlyType::Float, raw: n.f32_bits as u64 }
}

pub open spec fn indices_of(v: Seq<AsciiNum>) -> Seq<i64> {
    v.map_values(|n: AsciiNum| n.as_i64)
}

/// A vertex row from token `tok`: one number per property; the coordinates
/// are those of the properties at `idx`.
pub open spec fn ascii_vertex_row(toks: Seq<AsciiTokenV>, tok: int, nprops: int, idx: Seq<int>) -> Result<(PlyVertex, int), PlyErr> {
    match nums_at(toks, tok, nprops) {
        Err(e) => Err(e),
        Ok(v) => Ok(
            (PlyVertex { x: coord(v[idx[0]]), y: coord(v[idx[1]]), z: coord(v[idx[2]]) }, tok + nprops),
        ),
    }
}

/// The first `q` properties of a face (or other) row from token `tok`: a
/// list is a count and that many numbers, kept as corner indices; a scalar
/// is one number, read and dropped.
pub open spec fn ascii_props(toks: Seq<AsciiTokenV>, tok: int, props: Seq<PropV>, q: int) -> Result<(Seq<i64>, int), PlyErr>
    decreases q,
{
    if q <= 0 {
        Ok((seq![], tok))
    } else {
        match ascii_props(toks, tok, props, q - 1) {
            Err(e) => Err(e),
            Ok((f, t)) => match num_at(toks, t) {
                Err(e) => Err(e),
                Ok(c) => if props[q - 1].list_count is Some {
                    match nums_at(toks, t + 1, c.as_usize as int) {
                        Err(e) => Err(e),
                        Ok(vs) => Ok((f + indices_of(vs), t + 1 + c.as_usize)),
                    }
                } else {
                    Ok((f, t + 1))
                },
            },
        }
    }
}

/// What an ASCII body has given so far: the next token, vertices, indices.
pub struct AsciiState {
    pub tok: int,
    pub positions: Seq<PlyVertex>,
    pub indices: Seq<u32>,
}

/// One row of element `e`.
pub open spec fn ascii_row(toks: Seq<AsciiTokenV>, s: AsciiState, e: ElemV) -> Result<AsciiState, PlyErr> {
    if e.name == vertex_word() {
        let idx = prop_indices_of(e.props, xyz(), vertex_word())->Ok_0;
        match ascii_vertex_row(toks, s.tok, e.props.len() as int, idx) {
            Err(err) => Err(err),
            Ok((v, t)) => Ok(AsciiState { tok: t, positions: s.positions.push(v), ..s }),
        }
    } else {
        match ascii_props(toks, s.tok, e.props, e.props.len() as int) {
            Err(err) => Err(err),
            Ok((f, t)) => if e.name == face_word() {
                match pushed_face(f, s.indices, s.positions.len()) {
                    Err(err) => Err(err),
                    Ok(ind) => Ok(AsciiState { tok: t, indices: ind, ..s }),
                }
            } else {
                Ok(AsciiState { tok: t, ..s })
            },
        }
    }
}

pub open spec fn ascii_rows(toks: Seq<AsciiTokenV>, st: AsciiState, e: ElemV, k: int) -> Result<AsciiState, PlyErr>
    decreases k,
{
    if k <= 0 {
        Ok(st)
    } else {
        match ascii_rows(toks, st, e, k - 1) {
            Err(err) => Err(err),
            Ok(s) => ascii_row(toks, s, e),
        }
    }
}

/// The checks each row of `e` makes before it reads: vertices need `x`,
/// `y`, `z`, faces need a list. An element without rows checks nothing.
pub open spec fn ascii_checks(e: ElemV) -> Result<(), PlyErr> {
    if e.count == 0 {
        Ok(())
    } else if e.name == vertex_word() {
        match prop_indices_of(e.props, xyz(), vertex_word()) {
            Err(err) => Err(err),
            Ok(_) => Ok(()),
        }
    } else if e.name == face_word() && !has_list(e.props) {
        Err(PlyErr::FaceWithoutList)
    } else {
        Ok(())
    }
}

pub open spec fn ascii_elem(toks: Seq<AsciiTokenV>, st: AsciiState, e: ElemV) -> Result<AsciiState, PlyErr> {
    match ascii_checks(e) {
        Err(err) => Err(err),
        Ok(_) => ascii_rows(toks, st, e, e.count as int),
    }
}

pub open spec fn ascii_elems(toks: Seq<AsciiTokenV>, elems: Seq<ElemV>, k: int) -> Result<AsciiState, PlyErr>
    decreases k,
{
    if k <= 0 {
        Ok(AsciiState { tok: 0, positions: seq![], indices: seq![] })
    } else {
        match ascii_elems(toks, elems, k - 1) {
            Err(err) => Err(err),
            Ok(s) => ascii_elem(toks, s, elems[k - 1]),
        }
    }
}

/// The mesh of an ASCII body with tokens `toks`.
pub open spec fn ply_ascii(toks: Seq<AsciiTokenV>, elems: Seq<ElemV>) -> Result<PlyMeshV, PlyErr> {
    match ascii_elems(toks, elems, elems.len() as int) {
        Err(err) => Err(err),
        Ok(s) => if s.positions.len() == 0 || s.indices.len() == 0 {
            Err(PlyErr::NoMeshData)
        } else {
            Ok(PlyMeshV { positions: s.positions, indices: s.indices })
        },
    }
}

proof fn lemma_nums_err(toks: Seq<AsciiTokenV>, i: int, k: int, n: int)
    requires
        0 <= k <= n,
        nums_at(toks, i, k) is Err,
    ensures
        nums_at(toks, i, n) == nums_at(toks, i, k),
    decreases n - k,
{
    if k < n {
        lemma_nums_err(toks, i, k, n - 1);
    }
}

proof fn lemma_nums_len(toks: Seq<AsciiTokenV>, i: int, n: int)
    requires
        n >= 0,
    ensures
        nums_at(toks, i, n) matches Ok(v) ==> v.len() == n,
    decreases n,
{
    if n > 0 {
        lemma_nums_len(toks, i, n - 1);
    }
}

proof fn lemma_props_err(toks: Seq<AsciiTokenV>, tok: int, props: Seq<PropV>, q: int)
    requires
        0 <= q <= props.len(),
        ascii_props(toks, tok, props, q) is Err,
    ensures
        ascii_props(toks, tok, props, props.len() as int) == ascii_props(toks, tok, props, q),
    decreases props.len() - q,
{
    if q < props.len() {
        lemma_props_err(toks, tok, props, q + 1);
    }
}

proof fn lemma_rows_err(toks: Seq<AsciiTokenV>, st: AsciiState, e: ElemV, k: int, n: int)
    requires
        0 <= k <= n,
        ascii_rows(toks, st, e, k) is Err,
    ensures
        ascii_rows(toks, st, e, n) == ascii_rows(toks, st, e, k),
    decreases n - k,
{
    if k < n {
        lemma_rows_err(toks, st, e, k, n - 1);
    }
}

proof fn lemma_elems_err(toks: Seq<AsciiTokenV>, elems: Seq<ElemV>, k: int)
    requires
        0 <= k <= elems.len(),
        ascii_elems(toks, elems, k) is Err,
    ensures
        ascii_elems(toks, elems, elems.len() as int) == ascii_elems(toks, elems, k),
    decreases elems.len() - k,
{
    if k < elems.len() {
        lemma_elems_err(toks, elems, k + 1);
    }
}

/// Takes the number at token `*t`.
fn next_num(toks: &[AsciiToken], t: &mut usize) -> (r: Result<AsciiNum, PlyError>)
    requires
        *old(t) <= toks@.len(),
    ensures
        *final(t) <= toks@.len(),
        match num_at(tokens_view(toks@), *old(t) as int) {
            Ok(n) => r == Ok::<AsciiNum, PlyError>(n) && *final(t) == *old(t) + 1,
            Err(e) => r matches Err(re) && re@ == e,
        },
{
    if *t >= toks.len() {
        return Err(PlyError::Truncated);
    }
    let tk = &toks[*t];
    match tk.value {
        None => Err(PlyError::InvalidNumber(tk.text.clone())),
        Some(n) => {
            *t = *t + 1;
            Ok(n)
        },
    }
}

/// Takes `n` numbers from token `*t` on.
fn next_nums(toks: &[AsciiToken], t: &mut usize, n: usize) -> (r: Result<Vec<AsciiNum>, PlyError>)
    requires
        *old(t) <= toks@.len(),
    ensures
        *final(t) <= toks@.len(),
        match nums_at(tokens_view(toks@), *old(t) as int, n as int) {
            Ok(v) => r matches Ok(rv) && rv@ == v && *final(t) == *old(t) + n,
            Err(e) => r matches Err(re) && re@ == e,
        },
{
    let ghost tv = tokens_view(toks@);
    let ghost t0 = *t as int;
    let mut out: Vec<AsciiNum> = Vec::new();
    let mut k: usize = 0;
    while k < n
        invariant
            k <= n,
            tv == tokens_view(toks@),
            t0 == *old(t),
            *t <= toks@.len(),
            *t == t0 + k,
            nums_at(tv, t0, k as int) == Ok::<Seq<AsciiNum>, PlyErr>(out@),
        decreases n - k,
    {
        match next_num(toks, t) {
            Err(e) => {
                proof {
                    lemma_nums_err(tv, t0, k as int + 1, n as int);
                }
                return Err(e);
            },
            Ok(x) => {
                out.push(x);
            },
        }
        k += 1;
    }
    Ok(out)
}

/// Reads a vertex row: one number per property, the coordinates from the
/// properties at `idx`.
fn read_ascii_vertex(toks: &[AsciiToken], t: &mut usize, nprops: usize, idx: &[usize]) -> (r: Result<PlyVertex, PlyError>)
    requires
        *old(t) <= toks@.len(),
        idx@.len() == 3,
        forall|s: int| 0 <= s < 3 ==> (#[trigger] idx@[s]) < nprops,
    ensures
        *final(t) <= toks@.len(),
        match ascii_vertex_row(tokens_view(toks@), *old(t) as int, nprops as int, Seq::new(3, |s: int| idx@[s] as int)) {
            Ok((v, nt)) => r == Ok::<PlyVertex, PlyError>(v) && *final(t) == nt,
            Err(e) => r matches Err(re) && re@ == e,
        },
{
    let ghost tv = tokens_view(toks@);
    proof {
        lemma_nums_len(tv, *t as int, nprops as int);
    }
    let vals = next_nums(toks, t, nprops)?;
    let x = vals[idx[0]];
    let y = vals[idx[1]];
    let z = vals[idx[2]];
    Ok(
        PlyVertex {
            x: PlyScalar { ty: PlyType::Float, raw: x.f32_bits as u64 },
            y: PlyScalar { ty: PlyType::Float, raw: y.f32_bits as u64 },
            z: PlyScalar { ty: PlyType::Float, raw: z.f32_bits as u64 },
        },
    )
}

/// Reads a face (or other) row: the corner indices of its lists.
fn read_ascii_props(toks: &[AsciiToken], t: &mut usize, props: &[Prop]) -> (r: Result<Vec<i64>, PlyError>)
    requires
        *old(t) <= toks@.len(),
    ensures
        *final(t) <= toks@.len(),
        match ascii_props(tokens_view(toks@), *old(t) as int, props_view(props@), props@.len() as int) {
            Ok((f, nt)) => r matches Ok(rf) && rf@ == f && *final(t) == nt,
            Err(e) => r matches Err(re) && re@ == e,
        },
{
    let ghost tv = tokens_view(toks@);
    let ghost t0 = *t as int;
    let ghost pv = props_view(props@);
    let mut face: Vec<i64> = Vec::new();
    let mut q: usize = 0;
    while q < props.len()
        invariant
            q <= props@.len(),
            tv == tokens_view(toks@),
            pv == props_view(props@),
            t0 == *old(t),
            *t <= toks@.len(),
            ascii_props(tv, t0, pv, q as int) == Ok::<(Seq<i64>, int), PlyErr>((face@, *t as int)),
        decreases props@.len() - q,
    {
        let c = match next_num(toks, t) {
            Err(e) => {
                proof {
                    lemma_props_err(tv, t0, pv, q as int + 1);
                }
                return Err(e);
            },
            Ok(c) => c,
        };
        if props[q].list_count.is_some() {
            let vs = match next_nums(toks, t, c.as_usize) {
                Err(e) => {
                    proof {
                        lemma_props_err(tv, t0, pv, q as int + 1);
                    }
                    return Err(e);
                },
                Ok(vs) => vs,
            };
            let ghost f0 = face@;
            let mut j: usize = 0;
            while j < vs.len()
                invariant
                    j <= vs@.len(),
                    face@ == f0 + indices_of(vs@.take(j as int)),
                decreases vs@.len() - j,
            {
                face.push(vs[j].as_i64);
                j += 1;
                assert(face@ =~= f0 + indices_of(vs@.take(j as int)));
            }
            assert(vs@.take(vs@.len() as int) =~= vs@);
        }
        q += 1;
    }
    Ok(face)
}

/// Reads the rows of element `e` by `plan`.
fn read_ascii_rows(
    toks: &[AsciiToken],
    t: &mut usize,
    e: &Elem,
    plan: &RowPlan,
    positions: &mut Vec<PlyVertex>,
    indices: &mut Vec<u32>,
) -> (r: Result<(), PlyError>)
    requires
        *old(t) <= toks@.len(),
        plan_fits(*plan, e@),
    ensures
        *final(t) <= toks@.len(),
        match ascii_rows(
            tokens_view(toks@),
            AsciiState { tok: *old(t) as int, positions: old(positions)@, indices: old(indices)@ },
            e@,
            e@.count as int,
        ) {
            Ok(st) => r is Ok && st == AsciiState {
                tok: *final(t) as int,
                positions: final(positions)@,
                indices: final(indices)@,
            },
            Err(err) => r matches Err(re) && re@ == err,
        },
{
    let ghost tv = tokens_view(toks@);
    let ghost st0 = AsciiState { tok: *t as int, positions: positions@, indices: indices@ };
    let ghost ev = e@;
    let mut k: usize = 0;
    while k < e.count
        invariant
            k <= e.count,
            ev == e@,
            tv == tokens_view(toks@),
            plan_fits(*plan, ev),
            *t <= toks@.len(),
            st0 == (AsciiState { tok: *old(t) as int, positions: old(positions)@, indices: old(indices)@ }),
            ascii_rows(tv, st0, ev, k as int) == Ok::<AsciiState, PlyErr>(
                AsciiState { tok: *t as int, positions: positions@, indices: indices@ },
            ),
        decreases e.count - k,
    {
        let ghost s = AsciiState { tok: *t as int, positions: positions@, indices: indices@ };
        let step: Result<(), PlyError> = match plan {
            RowPlan::Vertex(idx) => {
                match read_ascii_vertex(toks, t, e.props.len(), idx) {
                    Err(err) => Err(err),
                    Ok(v) => {
                        positions.push(v);
                        Ok(())
                    },
                }
            },
            RowPlan::Face(_) => {
                match read_ascii_props(toks, t, &e.props) {
                    Err(err) => Err(err),
                    Ok(face) => push_face(&face, indices, positions.len()),
                }
            },
            RowPlan::Skip => {
                match read_ascii_props(toks, t, &e.props) {
                    Err(err) => Err(err),
                    Ok(_) => Ok(()),
                }
            },
        };
        match step {
            Err(err) => {
                assert(ascii_row(tv, s, ev) matches Err(be) && err@ == be);
                proof {
                    lemma_rows_err(tv, st0, ev, k as int + 1, ev.count as int);
                }
                return Err(err);
            },
            Ok(()) => {
                assert(ascii_row(tv, s, ev) == Ok::<AsciiState, PlyErr>(
                    AsciiState { tok: *t as int, positions: positions@, indices: indices@ },
                ));
            },
        }
        k += 1;
    }
    Ok(())
}

/// Reads a whole ASCII body given by its tokens.
pub fn load_ascii(toks: &[AsciiToken], elems: &[Elem]) -> (r: Result<PlyMesh, PlyError>)
    ensures
        result_matches(r, ply_ascii(tokens_view(toks@), elems_view(elems@))),
{
    let ghost tv = tokens_view(toks@);
    let ghost ev = elems_view(elems@);
    let mut t: usize = 0;
    let mut positions: Vec<PlyVertex> = Vec::new();
    let mut indices: Vec<u32> = Vec::new();
    let mut ei: usize = 0;
    while ei < elems.len()
        invariant
            ei <= elems@.len(),
            tv == tokens_view(toks@),
            ev == elems_view(elems@),
            t <= toks@.len(),
            ascii_elems(tv, ev, ei as int) == Ok::<AsciiState, PlyErr>(
                AsciiState { tok: t as int, positions: positions@, indices: indices@ },
            ),
        decreases elems@.len() - ei,
    {
        let e = &elems[ei];
        assert(ev[ei as int] == e@);
        if e.count > 0 {
            let plan = match ascii_plan(e) {
                Err(err) => {
                    proof {
                        lemma_elems_err(tv, ev, ei as int + 1);
                    }
                    return Err(err);
                },
                Ok(plan) => plan,
            };
            match read_ascii_rows(toks, &mut t, e, &plan, &mut positions, &mut indices) {
                Err(err) => {
                    proof {
                        lemma_elems_err(tv, ev, ei as int + 1);
                    }
                    return Err(err);
                },
                Ok(()) => {},
            }
        }
        ei += 1;
    }
    if positions.len() == 0 || indices.len() == 0 {
        return Err(PlyError::NoMeshData);
    }
    Ok(PlyMesh { positions, indices })
}

/// The checks of `ascii_checks` for an element with rows, and the plan for
/// reading them. Unlike a binary body, an ASCII vertex row reads one number
/// for every property, lists included, and a face may have other properties.
#[verifier::loop_isolation(false)]
fn ascii_plan(e: &Elem) -> (r: Result<RowPlan, PlyError>)
    requires
        e.count > 0,
    ensures
        match ascii_checks(e@) {
            Err(err) => r matches Err(re) && re@ == err,
            Ok(_) => r matches Ok(plan) && plan_fits(plan, e@),
        },
{
    let ghost pv = e@.props;
    proof {
        lemma_xyz(pv);
    }
    if is_word(&e.name, &vertex_name()) {
        let idx = match prop_indices(&e.props, &xyz_names(), &vertex_name()) {
            Err(err) => {
                return Err(err);
            },
            Ok(idx) => idx,
        };
        assert(Seq::new(3, |s: int| idx@[s] as int) =~= prop_indices_of(pv, xyz(), vertex_word())->Ok_0);
        Ok(RowPlan::Vertex(idx))
    } else if is_word(&e.name, &['f', 'a', 'c', 'e']) {
        proof {
            assert(['f', 'a', 'c', 'e']@ =~= face_word());
        }
        let mut lp: usize = 0;
        while lp < e.props.len() && e.props[lp].list_count.is_none()
            invariant
                lp <= e.props@.len(),
                pv == props_view(e.props@),
                forall|k: int| 0 <= k < lp ==> (#[trigger] pv[k]).list_count is None,
            decreases e.props@.len() - lp,
        {
            lp += 1;
        }
        proof {
            lemma_first_list(pv, lp as int);
        }
        if lp == e.props.len() {
            assert(!has_list(pv));
            return Err(PlyError::FaceWithoutList);
        }
        assert(pv[lp as int].list_count is Some);
        Ok(RowPlan::Face(lp))
    } else {
        proof {
            assert(['f', 'a', 'c', 'e']@ =~= face_word());
        }
        Ok(RowPlan::Skip)
    }
}

} // verus!
