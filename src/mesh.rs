//! Reader for a line-oriented mesh text: `v x y z` vertex lines, `vt`
//! texture-coordinate lines, and `f` face lines that name vertices by
//! 1-based index. Malformed lines are skipped.
use vstd::prelude::*;
use crate::geometry::{Vec3, Triangle, COORD_LIMIT, UNITS_PER_LENGTH};

verus! {

pub const NEWLINE: u8 = 10;
pub const SLASH: u8 = 47;
pub const DOT: u8 = 46;
pub const MINUS: u8 = 45;
pub const PLUS: u8 = 43;
pub const ZERO: u8 = 48;
pub const NINE: u8 = 57;
pub const LETTER_F: u8 = 102;
pub const LETTER_T: u8 = 116;
pub const LETTER_V: u8 = 118;

/// ASCII whitespace: space, tab, line feed, vertical tab, form feed,
/// carriage return.
pub open spec fn is_space(b: u8) -> bool {
    b == 32 || (9 <= b && b <= 13)
}

pub open spec fn views_of(v: Seq<Vec<u8>>) -> Seq<Seq<u8>> {
    v.map_values(|x: Vec<u8>| x@)
}

/// Words of `s` after the partial word `cur`, split at whitespace.
pub open spec fn words_from(s: Seq<u8>, cur: Seq<u8>) -> Seq<Seq<u8>>
    decreases s.len(),
{
    if s.len() == 0 {
        if cur.len() > 0 { seq![cur] } else { Seq::empty() }
    } else if is_space(s[0]) {
        (if cur.len() > 0 { seq![cur] } else { Seq::empty() }) + words_from(s.drop_first(), Seq::empty())
    } else {
        words_from(s.drop_first(), cur.push(s[0]))
    }
}

/// The whitespace-separated words of `s`.
pub open spec fn words(s: Seq<u8>) -> Seq<Seq<u8>> {
    words_from(s, Seq::empty())
}

/// Pieces of `s` after the partial piece `cur`, split at every `/`.
pub open spec fn pieces_from(s: Seq<u8>, cur: Seq<u8>) -> Seq<Seq<u8>>
    decreases s.len(),
{
    if s.len() == 0 {
        seq![cur]
    } else if s[0] == SLASH {
        seq![cur] + pieces_from(s.drop_first(), Seq::empty())
    } else {
        pieces_from(s.drop_first(), cur.push(s[0]))
    }
}

/// The `/`-separated pieces of `s`, empty ones included.
pub open spec fn pieces(s: Seq<u8>) -> Seq<Seq<u8>> {
    pieces_from(s, Seq::empty())
}

fn is_space_byte(b: u8) -> (r: bool)
    ensures
        r == is_space(b),
{
    b == 32 || (9 <= b && b <= 13)
}

/// Splits `s` into its whitespace-separated words.
fn split_words(s: &[u8]) -> (r: Vec<Vec<u8>>)
    ensures
        views_of(r@) == words(s@),
{
    let mut acc: Vec<Vec<u8>> = Vec::new();
    let mut cur: Vec<u8> = Vec::new();
    let mut i: usize = 0;
    assert(s@.skip(0) =~= s@);
    assert(views_of(acc@) =~= Seq::<Seq<u8>>::empty());
    assert(cur@ =~= Seq::<u8>::empty());
    while i < s.len()
        invariant
            i <= s@.len(),
            views_of(acc@) + words_from(s@.skip(i as int), cur@) == words(s@),
        decreases s@.len() - i,
    {
        let b = s[i];
        let ghost rest = s@.skip(i as int);
        assert(rest[0] == b);
        assert(rest.drop_first() =~= s@.skip(i as int + 1));
        if is_space_byte(b) {
            let ghost w = words_from(s@.skip(i as int + 1), Seq::empty());
            if cur.len() > 0 {
                let ghost before = views_of(acc@);
                acc.push(cur);
                assert(views_of(acc@) =~= before.push(cur@));
                assert(before + (seq![cur@] + w) =~= before.push(cur@) + w);
            } else {
                assert(Seq::<Seq<u8>>::empty() + w =~= w);
            }
            cur = Vec::new();
            assert(cur@ =~= Seq::<u8>::empty());
        } else {
            cur.push(b);
        }
        i += 1;
    }
    let ghost before = views_of(acc@);
    assert(s@.skip(i as int) =~= Seq::<u8>::empty());
    if cur.len() > 0 {
        acc.push(cur);
        assert(views_of(acc@) =~= before + seq![cur@]);
    } else {
        assert(before + Seq::<Seq<u8>>::empty() =~= before);
    }
    acc
}

/// Splits `s` into its `/`-separated pieces.
fn split_pieces(s: &[u8]) -> (r: Vec<Vec<u8>>)
    ensures
        views_of(r@) == pieces(s@),
{
    let mut acc: Vec<Vec<u8>> = Vec::new();
    let mut cur: Vec<u8> = Vec::new();
    let mut i: usize = 0;
    assert(s@.skip(0) =~= s@);
    assert(views_of(acc@) =~= Seq::<Seq<u8>>::empty());
    assert(cur@ =~= Seq::<u8>::empty());
    while i < s.len()
        invariant
            i <= s@.len(),
            views_of(acc@) + pieces_from(s@.skip(i as int), cur@) == pieces(s@),
        decreases s@.len() - i,
    {
        let b = s[i];
        let ghost rest = s@.skip(i as int);
        assert(rest[0] == b);
        assert(rest.drop_first() =~= s@.skip(i as int + 1));
        if b == SLASH {
            let ghost w = pieces_from(s@.skip(i as int + 1), Seq::empty());
            let ghost before = views_of(acc@);
            acc.push(cur);
            assert(views_of(acc@) =~= before.push(cur@));
            assert(before + (seq![cur@] + w) =~= before.push(cur@) + w);
            cur = Vec::new();
            assert(cur@ =~= Seq::<u8>::empty());
        } else {
            cur.push(b);
        }
        i += 1;
    }
    let ghost before = views_of(acc@);
    assert(s@.skip(i as int) =~= Seq::<u8>::empty());
    acc.push(cur);
    assert(views_of(acc@) =~= before + seq![cur@]);
    acc
}

pub open spec fn is_digit(b: u8) -> bool {
    ZERO <= b && b <= NINE
}

pub open spec fn all_digits(s: Seq<u8>) -> bool {
    forall|k: int| 0 <= k < s.len() ==> is_digit(#[trigger] s[k])
}

/// The number that the decimal digits `s` spell.
pub open spec fn digits_value(s: Seq<u8>) -> nat
    decreases s.len(),
{
    if s.len() == 0 {
        0
    } else {
        digits_value(s.drop_last()) * 10 + (s.last() - ZERO) as nat
    }
}

/// Position of the first `.` in `s`, or its length.
pub open spec fn dot_pos(s: Seq<u8>) -> nat
    decreases s.len(),
{
    if s.len() == 0 {
        0
    } else if s[0] == DOT {
        0
    } else {
        1 + dot_pos(s.drop_first())
    }
}

/// Value of fraction digit `k` of `f`, zero past its end.
pub open spec fn frac_digit(f: Seq<u8>, k: int) -> int {
    if k < f.len() { (f[k] - ZERO) as int } else { 0 }
}

/// An unsigned decimal `digits[.digits]` with at least one digit, in
/// fixed-point steps, rounded half up at the fifth fraction digit.
pub open spec fn unsigned_fixed(body: Seq<u8>) -> Option<int> {
    let d = dot_pos(body) as int;
    let ip = body.take(d);
    let fp = if d < body.len() { body.skip(d + 1) } else { Seq::empty() };
    if all_digits(ip) && all_digits(fp) && ip.len() + fp.len() > 0 {
        Some(
            digits_value(ip) * UNITS_PER_LENGTH + 1000 * frac_digit(fp, 0) + 100 * frac_digit(fp, 1) + 10
                * frac_digit(fp, 2) + frac_digit(fp, 3) + (if fp.len() > 4 && fp[4] >= 53 { 1int } else { 0int }),
        )
    } else {
        None
    }
}

/// A decimal with an optional sign, in fixed-point steps, when it is
/// well formed and within `COORD_LIMIT`.
pub open spec fn parse_fixed(tok: Seq<u8>) -> Option<int> {
    let signed = tok.len() > 0 && (tok[0] == MINUS || tok[0] == PLUS);
    let body = if signed { tok.drop_first() } else { tok };
    match unsigned_fixed(body) {
        Some(m) => if m <= COORD_LIMIT {
            Some(if signed && tok[0] == MINUS { -m } else { m })
        } else {
            None
        },
        None => None,
    }
}

/// A vertex coordinate: the number `tok` spells, or zero when it spells none.
pub open spec fn coordinate(tok: Seq<u8>) -> i32 {
    match parse_fixed(tok) {
        Some(v) => v as i32,
        None => 0,
    }
}

/// The 0-based vertex that the 1-based index `tok` names, among `n`.
pub open spec fn face_index(tok: Seq<u8>, n: nat) -> Option<nat> {
    let body = if tok.len() > 0 && tok[0] == PLUS { tok.drop_first() } else { tok };
    if body.len() > 0 && all_digits(body) && 1 <= digits_value(body) <= n {
        Some((digits_value(body) - 1) as nat)
    } else {
        None
    }
}

proof fn lemma_digits_prefix(s: Seq<u8>, k: int)
    requires
        all_digits(s),
        0 <= k <= s.len(),
    ensures
        digits_value(s) >= digits_value(s.take(k)),
    decreases s.len(),
{
    if k < s.len() {
        let d = s.drop_last();
        assert(d.take(k) =~= s.take(k));
        assert(all_digits(d)) by {
            assert forall|m: int| 0 <= m < d.len() implies is_digit(#[trigger] d[m]) by {
                assert(d[m] == s[m]);
            }
        }
        lemma_digits_prefix(d, k);
    } else {
        assert(s.take(k) =~= s);
    }
}

proof fn lemma_dot_pos(s: Seq<u8>, i: int)
    requires
        0 <= i <= s.len(),
        forall|k: int| 0 <= k < i ==> s[k] != DOT,
        i == s.len() || s[i] == DOT,
    ensures
        dot_pos(s) == i,
    decreases i,
{
    if i > 0 {
        lemma_dot_pos(s.drop_first(), i - 1);
    }
}

/// No `.` up to and including position `p` puts the first one after it.
proof fn lemma_dot_after(s: Seq<u8>, p: int)
    requires
        0 <= p < s.len(),
        forall|k: int| 0 <= k <= p ==> s[k] != DOT,
    ensures
        p < dot_pos(s) <= s.len(),
    decreases p,
{
    lemma_dot_bound(s);
    if p > 0 {
        lemma_dot_after(s.drop_first(), p - 1);
    }
}

proof fn lemma_dot_bound(s: Seq<u8>)
    ensures
        dot_pos(s) <= s.len(),
    decreases s.len(),
{
    if s.len() > 0 {
        lemma_dot_bound(s.drop_first());
    }
}

/// The fraction digit `k` of the number starting at `fs`, zero past `tok`'s end.
fn frac_digit_at(tok: &[u8], fs: usize, k: usize) -> (r: i64)
    requires
        fs <= tok@.len(),
        all_digits(tok@.skip(fs as int)),
    ensures
        r as int == frac_digit(tok@.skip(fs as int), k as int),
{
    if k < tok.len() - fs {
        assert(tok@.skip(fs as int)[k as int] == tok@[fs + k]);
        (tok[fs + k] - ZERO) as i64
    } else {
        0
    }
}

/// Reads the number `tok[start..]` spells, without sign, as fixed point.
fn unsigned_fixed_at(tok: &[u8], start: usize) -> (r: Option<i64>)
    requires
        start <= tok@.len(),
    ensures
        match unsigned_fixed(tok@.skip(start as int)) {
            Some(m) => if m <= COORD_LIMIT { r == Some(m as i64) } else { r is None },
            None => r is None,
        },
{
    let ghost body = tok@.skip(start as int);
    let n = tok.len();
    let mut i: usize = start;
    let mut v: i64 = 0;
    assert(body.take(0) =~= Seq::<u8>::empty());
    while i < n && tok[i] != DOT
        invariant
            start <= i <= n,
            n == tok@.len(),
            body == tok@.skip(start as int),
            forall|k: int| 0 <= k < i - start ==> body[k] != DOT,
            all_digits(body.take(i - start)),
            v as int == digits_value(body.take(i - start)),
            v <= 100_000,
        decreases n - i,
    {
        let b = tok[i];
        let ghost p = i - start;
        assert(body[p] == b);
        proof {
            lemma_dot_after(body, p);
        }
        if b < ZERO || b > NINE {
            assert(body.take(dot_pos(body) as int)[p] == b);
            return None;
        }
        let ghost prev = body.take(p);
        assert(body.take(p + 1).drop_last() =~= prev);
        v = v * 10 + (b - ZERO) as i64;
        i += 1;
        assert(v as int == digits_value(body.take(p + 1)));
        assert(all_digits(body.take(p + 1))) by {
            assert forall|m: int| 0 <= m < p + 1 implies is_digit(#[trigger] body.take(p + 1)[m]) by {
                if m < p {
                    assert(body.take(p + 1)[m] == prev[m]);
                }
            }
        }
        if v > 100_000 {
            proof {
                let ip = body.take(dot_pos(body) as int);
                if all_digits(ip) {
                    assert(ip.take(p + 1) =~= body.take(p + 1));
                    lemma_digits_prefix(ip, p + 1);
                    let dv = digits_value(ip);
                    assert(dv * 10_000 > 1_000_000_000) by (nonlinear_arith)
                        requires dv > 100_000;
                    let d = dot_pos(body) as int;
                    let fp = if d < body.len() { body.skip(d + 1) } else { Seq::empty() };
                    if all_digits(fp) {
                        assert(frac_digit(fp, 0) >= 0 && frac_digit(fp, 1) >= 0 && frac_digit(fp, 2) >= 0 && frac_digit(fp, 3) >= 0) by {
                            if fp.len() > 0 { assert(is_digit(fp[0])); }
                            if fp.len() > 1 { assert(is_digit(fp[1])); }
                            if fp.len() > 2 { assert(is_digit(fp[2])); }
                            if fp.len() > 3 { assert(is_digit(fp[3])); }
                        }
                    }
                }
            }
            return None;
        }
    }
    proof {
        lemma_dot_pos(body, i - start);
    }
    let ghost ip = body.take(i - start);
    let mut frac: i64 = 0;
    if i < n {
        let fs = i + 1;
        let ghost fp = body.skip(i - start + 1);
        assert(fp =~= tok@.skip(fs as int));
        let mut j: usize = fs;
        while j < n
            invariant
                fs <= j <= n,
                fs == i + 1,
                start <= i < n,
                n == tok@.len(),
                fp == tok@.skip(fs as int),
                body == tok@.skip(start as int),
                dot_pos(body) == i - start,
                fp == body.skip(i - start + 1),
                forall|m: int| 0 <= m < j - fs ==> is_digit(#[trigger] fp[m]),
            decreases n - j,
        {
            assert(fp[j - fs] == tok@[j as int]);
            if tok[j] < ZERO || tok[j] > NINE {
                assert(!all_digits(fp));
                return None;
            }
            j += 1;
        }
        if i == start && fs == n {
            return None;
        }
        frac = 1000 * frac_digit_at(tok, fs, 0) + 100 * frac_digit_at(tok, fs, 1) + 10 * frac_digit_at(tok, fs, 2)
            + frac_digit_at(tok, fs, 3);
        if n - fs > 4 && tok[fs + 4] >= 53 {
            assert(fp[4] == tok@[fs + 4]);
            frac = frac + 1;
        }
    } else {
        if i == start {
            return None;
        }
    }
    let m = v * 10_000 + frac;
    if m > COORD_LIMIT as i64 {
        return None;
    }
    Some(m)
}

/// Reads a signed decimal as fixed point.
fn read_fixed(tok: &[u8]) -> (r: Option<i32>)
    ensures
        match parse_fixed(tok@) {
            Some(v) => r == Some(v as i32) && -COORD_LIMIT <= v <= COORD_LIMIT,
            None => r is None,
        },
{
    if tok.len() > 0 && (tok[0] == MINUS || tok[0] == PLUS) {
        assert(tok@.skip(1) =~= tok@.drop_first());
        match unsigned_fixed_at(tok, 1) {
            Some(m) => if tok[0] == MINUS {
                Some(-(m as i32))
            } else {
                Some(m as i32)
            },
            None => None,
        }
    } else {
        assert(tok@.skip(0) =~= tok@);
        match unsigned_fixed_at(tok, 0) {
            Some(m) => Some(m as i32),
            None => None,
        }
    }
}

/// Reads a 1-based vertex index among `n` vertices as a 0-based one.
fn read_face_index(tok: &[u8], n: usize) -> (r: Option<usize>)
    ensures
        match face_index(tok@, n as nat) {
            Some(k) => r == Some(k as usize),
            None => r is None,
        },
{
    let start: usize = if tok.len() > 0 && tok[0] == PLUS { 1 } else { 0 };
    let ghost body = tok@.skip(start as int);
    assert(start == 1 ==> body =~= tok@.drop_first());
    assert(start == 0 ==> body =~= tok@);
    assert(body == (if tok@.len() > 0 && tok@[0] == PLUS { tok@.drop_first() } else { tok@ }));
    if start == tok.len() {
        return None;
    }
    let mut v: u128 = 0;
    let mut i: usize = start;
    assert(body.take(0) =~= Seq::<u8>::empty());
    while i < tok.len()
        invariant
            start <= i <= tok@.len(),
            body == tok@.skip(start as int),
            body == (if tok@.len() > 0 && tok@[0] == PLUS { tok@.drop_first() } else { tok@ }),
            all_digits(body.take(i - start)),
            v as int == digits_value(body.take(i - start)),
            v <= n,
        decreases tok@.len() - i,
    {
        let b = tok[i];
        let ghost p = i - start;
        assert(body[p] == b);
        if b < ZERO || b > NINE {
            assert(!all_digits(body));
            return None;
        }
        let ghost prev = body.take(p);
        assert(body.take(p + 1).drop_last() =~= prev);
        v = v * 10 + (b - ZERO) as u128;
        i += 1;
        assert(v as int == digits_value(body.take(p + 1)));
        assert(all_digits(body.take(p + 1))) by {
            assert forall|m: int| 0 <= m < p + 1 implies is_digit(#[trigger] body.take(p + 1)[m]) by {
                if m < p {
                    assert(body.take(p + 1)[m] == prev[m]);
                }
            }
        }
        if v > n as u128 {
            proof {
                if all_digits(body) {
                    lemma_digits_prefix(body, p + 1);
                }
            }
            return None;
        }
    }
    assert(body.take(i - start) =~= body);
    if v == 0 {
        assert(digits_value(body) == 0);
        return None;
    }
    Some((v - 1) as usize)
}

/// What the reader has gathered so far.
pub ghost struct MeshState {
    pub verts: Seq<Vec3>,
    pub textured: bool,
    pub tris: Seq<Triangle>,
}

/// The `/`-separated pieces of the words after the first, in order.
pub open spec fn face_pieces(w: Seq<Seq<u8>>, k: int) -> Seq<Seq<u8>>
    decreases k,
{
    if k <= 1 || k > w.len() {
        Seq::empty()
    } else {
        face_pieces(w, k - 1) + pieces(w[k - 1])
    }
}

/// Adds the triangle through the vertices `a`, `b` and `c` name, when all
/// three name one.
pub open spec fn with_face(st: MeshState, a: Seq<u8>, b: Seq<u8>, c: Seq<u8>, material_id: u32) -> MeshState {
    let n = st.verts.len();
    match (face_index(a, n), face_index(b, n), face_index(c, n)) {
        (Some(i), Some(j), Some(k)) => MeshState {
            tris: st.tris.push(
                Triangle {
                    vertex_0: st.verts[i as int],
                    vertex_1: st.verts[j as int],
                    vertex_2: st.verts[k as int],
                    material_id,
                },
            ),
            ..st
        },
        _ => st,
    }
}

/// The effect of one line. A `vt` line marks the mesh as textured, after
/// which faces list `vertex/texture` pairs; a `v` line with three numbers
/// adds a vertex; an `f` line adds a triangle through its first three
/// vertices. Anything else, or a line that does not fit, changes nothing.
pub open spec fn step(st: MeshState, line: Seq<u8>, material_id: u32) -> MeshState {
    let w = words(line);
    if w.len() == 0 || w[0].len() == 0 {
        st
    } else if w[0].len() >= 2 && w[0][0] == LETTER_V && w[0][1] == LETTER_T {
        MeshState { textured: true, ..st }
    } else if w[0][0] == LETTER_V {
        if w.len() >= 4 {
            MeshState {
                verts: st.verts.push(Vec3 { x: coordinate(w[1]), y: coordinate(w[2]), z: coordinate(w[3]) }),
                ..st
            }
        } else {
            st
        }
    } else if w[0][0] == LETTER_F {
        if st.textured {
            let p = face_pieces(w, w.len() as int);
            if p.len() >= 6 {
                with_face(st, p[0], p[2], p[4], material_id)
            } else {
                st
            }
        } else if w.len() >= 4 {
            with_face(st, w[1], w[2], w[3], material_id)
        } else {
            st
        }
    } else {
        st
    }
}

/// The state after the rest of the text `rest`, which continues the
/// partial line `cur`.
pub open spec fn parse_from(rest: Seq<u8>, cur: Seq<u8>, st: MeshState, material_id: u32) -> MeshState
    decreases rest.len(),
{
    if rest.len() == 0 {
        step(st, cur, material_id)
    } else if rest[0] == NEWLINE {
        parse_from(rest.drop_first(), Seq::empty(), step(st, cur, material_id), material_id)
    } else {
        parse_from(rest.drop_first(), cur.push(rest[0]), st, material_id)
    }
}

/// The triangles a mesh text describes, line by line.
pub open spec fn mesh_triangles(text: Seq<u8>, material_id: u32) -> Seq<Triangle> {
    parse_from(
        text,
        Seq::empty(),
        MeshState { verts: Seq::empty(), textured: false, tris: Seq::empty() },
        material_id,
    ).tris
}

pub open spec fn state_of(verts: Seq<Vec3>, textured: bool, tris: Seq<Triangle>) -> MeshState {
    MeshState { verts, textured, tris }
}

/// Every vertex within the coordinate limit, hence every triangle too.
pub open spec fn sound(verts: Seq<Vec3>, tris: Seq<Triangle>) -> bool {
    &&& forall|v: int| 0 <= v < verts.len() ==> (#[trigger] verts[v]).in_range()
    &&& forall|t: int| 0 <= t < tris.len() ==> (#[trigger] tris[t]).wf()
}

fn read_coordinate(tok: &[u8]) -> (r: i32)
    ensures
        r == coordinate(tok@),
        -COORD_LIMIT <= r <= COORD_LIMIT,
{
    match read_fixed(tok) {
        Some(v) => v,
        None => 0,
    }
}

fn add_face(a: &[u8], b: &[u8], c: &[u8], verts: &Vec<Vec3>, tris: &mut Vec<Triangle>, material_id: u32)
    requires
        sound(verts@, old(tris)@),
    ensures
        state_of(verts@, false, final(tris)@) == with_face(state_of(verts@, false, old(tris)@), a@, b@, c@, material_id),
        sound(verts@, final(tris)@),
{
    let n = verts.len();
    let ia = read_face_index(a, n);
    let ib = read_face_index(b, n);
    let ic = read_face_index(c, n);
    match (ia, ib, ic) {
        (Some(i), Some(j), Some(k)) => {
            let t = Triangle { vertex_0: verts[i], vertex_1: verts[j], vertex_2: verts[k], material_id };
            assert(t.wf()) by {
                assert(verts@[i as int].in_range());
                assert(verts@[j as int].in_range());
                assert(verts@[k as int].in_range());
            }
            tris.push(t);
        },
        _ => {},
    }
}

fn collect_face_pieces(w: &Vec<Vec<u8>>) -> (r: Vec<Vec<u8>>)
    ensures
        views_of(r@) == face_pieces(views_of(w@), w@.len() as int),
{
    let mut acc: Vec<Vec<u8>> = Vec::new();
    let mut k: usize = 1;
    assert(views_of(acc@) =~= Seq::<Seq<u8>>::empty());
    if w.len() == 0 {
        return acc;
    }
    while k < w.len()
        invariant
            1 <= k <= w@.len(),
            views_of(acc@) == face_pieces(views_of(w@), k as int),
        decreases w@.len() - k,
    {
        let mut p = split_pieces(w[k].as_slice());
        let ghost before = views_of(acc@);
        let ghost added = views_of(p@);
        acc.append(&mut p);
        assert(views_of(acc@) =~= before + added);
        k += 1;
    }
    acc
}

/// Applies one line to the reader's state.
fn read_line(line: &[u8], verts: &mut Vec<Vec3>, textured: &mut bool, tris: &mut Vec<Triangle>, material_id: u32)
    requires
        sound(old(verts)@, old(tris)@),
    ensures
        state_of(final(verts)@, *final(textured), final(tris)@) == step(
            state_of(old(verts)@, *old(textured), old(tris)@),
            line@,
            material_id,
        ),
        sound(final(verts)@, final(tris)@),
{
    let w = split_words(line);
    let ghost wv = views_of(w@);
    assert(w@.len() == wv.len());
    if w.len() == 0 || w[0].len() == 0 {
        return;
    }
    assert(wv[0] == w@[0]@);
    let first = w[0].as_slice();
    if first.len() >= 2 && first[0] == LETTER_V && first[1] == LETTER_T {
        *textured = true;
    } else if first[0] == LETTER_V {
        if w.len() >= 4 {
            let v = Vec3 {
                x: read_coordinate(w[1].as_slice()),
                y: read_coordinate(w[2].as_slice()),
                z: read_coordinate(w[3].as_slice()),
            };
            assert(wv[1] == w@[1]@ && wv[2] == w@[2]@ && wv[3] == w@[3]@);
            verts.push(v);
        }
    } else if first[0] == LETTER_F {
        if *textured {
            let p = collect_face_pieces(&w);
            let ghost pv = views_of(p@);
            assert(p@.len() == pv.len());
            if p.len() >= 6 {
                assert(pv[0] == p@[0]@ && pv[2] == p@[2]@ && pv[4] == p@[4]@);
                add_face(p[0].as_slice(), p[2].as_slice(), p[4].as_slice(), verts, tris, material_id);
            }
        } else if w.len() >= 4 {
            assert(wv[1] == w@[1]@ && wv[2] == w@[2]@ && wv[3] == w@[3]@);
            add_face(w[1].as_slice(), w[2].as_slice(), w[3].as_slice(), verts, tris, material_id);
        }
    }
}

/// Reads the triangles of a mesh text, every one with `material_id`.
/// Vertices are numbered from 1 in the order their lines appear; a face
/// line that names a missing vertex, or that is otherwise malformed, is
/// skipped, and a coordinate that is not a plain decimal within
/// `COORD_LIMIT` reads as zero.
pub fn parse_mesh(text: &[u8], material_id: u32) -> (r: Vec<Triangle>)
    ensures
        r@ == mesh_triangles(text@, material_id),
        forall|t: int| 0 <= t < r@.len() ==> (#[trigger] r@[t]).wf(),
{
    let mut verts: Vec<Vec3> = Vec::new();
    let mut textured = false;
    let mut tris: Vec<Triangle> = Vec::new();
    let mut cur: Vec<u8> = Vec::new();
    let ghost goal = parse_from(
        text@,
        Seq::empty(),
        MeshState { verts: Seq::empty(), textured: false, tris: Seq::empty() },
        material_id,
    );
    assert(text@.skip(0) =~= text@);
    assert(cur@ =~= Seq::<u8>::empty());
    assert(state_of(verts@, textured, tris@) =~= MeshState { verts: Seq::empty(), textured: false, tris: Seq::empty() });
    let mut i: usize = 0;
    while i < text.len()
        invariant
            i <= text@.len(),
            sound(verts@, tris@),
            parse_from(text@.skip(i as int), cur@, state_of(verts@, textured, tris@), material_id) == goal,
        decreases text@.len() - i,
    {
        let b = text[i];
        assert(text@.skip(i as int)[0] == b);
        assert(text@.skip(i as int).drop_first() =~= text@.skip(i as int + 1));
        if b == NEWLINE {
            read_line(cur.as_slice(), &mut verts, &mut textured, &mut tris, material_id);
            cur = Vec::new();
            assert(cur@ =~= Seq::<u8>::empty());
        } else {
            cur.push(b);
        }
        i += 1;
    }
    assert(text@.skip(i as int) =~= Seq::<u8>::empty());
    read_line(cur.as_slice(), &mut verts, &mut textured, &mut tris, material_id);
    tris
}

} // verus!
