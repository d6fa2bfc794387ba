//! The table emitter: it orders resolved icons by a total key comparison
//! (variant, then category, then name), rejects identifier collisions before
//! anything is written, and serializes the table with fixed two-decimal
//! precision. Equal inputs always yield the identical text.
use vstd::prelude::*;

use crate::ident::{const_name, ident_of};
use crate::scan::{GKey, IconKey};
use crate::scene::{shapes_view, GGeom, GShape, Geometry, OpacityShape, PathCmd};
use crate::text::{
    cmp_str, extend_chars, lemma_lex_cmp_antisym, lemma_lex_cmp_eq, lemma_lex_cmp_trans, lex_cmp,
    string_from_chars,
};

verus! {

/// One entry of the output table: the icon's key, its nominal size, and its
/// flattened shapes in painter's order.
pub struct ResolvedIcon {
    pub key: IconKey,
    pub size: u32,
    pub shapes: Vec<OpacityShape>,
}

/// Mathematical model of a table entry.
pub ghost struct GIcon {
    pub key: GKey,
    pub size: int,
    pub shapes: Seq<GShape>,
}

impl View for ResolvedIcon {
    type V = GIcon;

    open spec fn view(&self) -> GIcon {
        GIcon { key: self.key@, size: self.size as int, shapes: shapes_view(self.shapes@) }
    }
}

/// The view of a table entry list.
pub open spec fn icons_view(s: Seq<ResolvedIcon>) -> Seq<GIcon> {
    s.map_values(|i: ResolvedIcon| i@)
}

/// Three-way comparison of icon keys: by variant, then category, then name.
pub open spec fn key_cmp(a: GKey, b: GKey) -> int {
    if lex_cmp(a.variant, b.variant) != 0 {
        lex_cmp(a.variant, b.variant)
    } else if lex_cmp(a.category, b.category) != 0 {
        lex_cmp(a.category, b.category)
    } else {
        lex_cmp(a.name, b.name)
    }
}

/// The table's total order on keys.
pub open spec fn key_le(a: GKey, b: GKey) -> bool {
    key_cmp(a, b) <= 0
}

/// The key order is total: two keys always compare one way or the other.
pub proof fn lemma_key_le_total(a: GKey, b: GKey)
    ensures
        key_le(a, b) || key_le(b, a),
{
    lemma_lex_cmp_antisym(a.variant, b.variant);
    lemma_lex_cmp_antisym(a.category, b.category);
    lemma_lex_cmp_antisym(a.name, b.name);
}

/// The key order is transitive.
pub proof fn lemma_key_le_trans(a: GKey, b: GKey, c: GKey)
    requires
        key_le(a, b),
        key_le(b, c),
    ensures
        key_le(a, c),
{
    assert(lex_cmp(a.variant, b.variant) <= 0 && lex_cmp(b.variant, c.variant) <= 0);
    lemma_lex_cmp_trans(a.variant, b.variant, c.variant);
    if lex_cmp(a.variant, c.variant) == 0 {
        lemma_lex_cmp_eq(a.variant, c.variant);
        lemma_lex_cmp_antisym(a.variant, b.variant);
        lemma_lex_cmp_antisym(b.variant, c.variant);
        assert(lex_cmp(a.variant, b.variant) == 0);
        lemma_lex_cmp_eq(a.variant, b.variant);
        lemma_lex_cmp_eq(b.variant, c.variant);
        assert(lex_cmp(a.category, b.category) <= 0 && lex_cmp(b.category, c.category) <= 0);
        lemma_lex_cmp_trans(a.category, b.category, c.category);
        if lex_cmp(a.category, c.category) == 0 {
            lemma_lex_cmp_eq(a.category, c.category);
            lemma_lex_cmp_antisym(a.category, b.category);
            lemma_lex_cmp_antisym(b.category, c.category);
            assert(lex_cmp(a.category, b.category) == 0);
            lemma_lex_cmp_eq(a.category, b.category);
            lemma_lex_cmp_eq(b.category, c.category);
            lemma_lex_cmp_trans(a.name, b.name, c.name);
        }
    }
}

/// Run-time check of the key order.
pub fn key_le_exec(a: &IconKey, b: &IconKey) -> (r: bool)
    ensures
        r == key_le(a@, b@),
{
    let cv = cmp_str(&a.variant, &b.variant);
    if cv != 0 {
        cv < 0
    } else {
        let cc = cmp_str(&a.category, &b.category);
        if cc != 0 {
            cc < 0
        } else {
            cmp_str(&a.name, &b.name) <= 0
        }
    }
}

/// Whether a table is ordered by the key order.
pub open spec fn sorted_icons(s: Seq<GIcon>) -> bool {
    forall|i: int, j: int|
        0 <= i < j < s.len() ==> key_le((#[trigger] s[i]).key, (#[trigger] s[j]).key)
}

/// One icon inserted in front of the first entry it does not sort after.
pub open spec fn insert_sorted(x: GIcon, s: Seq<GIcon>) -> Seq<GIcon>
    decreases s.len(),
{
    if s.len() == 0 {
        seq![x]
    } else if key_le(x.key, s[0].key) {
        seq![x] + s
    } else {
        seq![s[0]] + insert_sorted(x, s.subrange(1, s.len() as int))
    }
}

/// All icons inserted one by one, left to right.
pub open spec fn sort_fold(acc: Seq<GIcon>, rs: Seq<GIcon>) -> Seq<GIcon>
    decreases rs.len(),
{
    if rs.len() == 0 {
        acc
    } else {
        sort_fold(insert_sorted(rs[0], acc), rs.subrange(1, rs.len() as int))
    }
}

/// The table in its canonical order.
pub open spec fn sort_spec(s: Seq<GIcon>) -> Seq<GIcon> {
    sort_fold(Seq::<GIcon>::empty(), s)
}

/// Inserting at the first position whose entry does not sort before `x`
/// realizes `insert_sorted`.
proof fn lemma_insert_at(x: GIcon, s: Seq<GIcon>, j: int)
    requires
        0 <= j <= s.len(),
        forall|m: int| 0 <= m < j ==> !key_le(x.key, (#[trigger] s[m]).key),
        j < s.len() ==> key_le(x.key, s[j].key),
    ensures
        insert_sorted(x, s) == s.subrange(0, j) + seq![x] + s.subrange(j, s.len() as int),
    decreases j,
{
    if j == 0 {
        if s.len() == 0 {
            assert(insert_sorted(x, s) =~= s.subrange(0, 0) + seq![x] + s.subrange(
                0,
                s.len() as int,
            ));
        } else {
            assert(seq![x] + s =~= s.subrange(0, 0) + seq![x] + s.subrange(0, s.len() as int));
        }
    } else {
        let s1 = s.subrange(1, s.len() as int);
        assert(forall|m: int| 0 <= m < j - 1 ==> !key_le(x.key, (#[trigger] s1[m]).key)) by {
            assert(forall|m: int| 0 <= m < j - 1 ==> s1[m] == s[m + 1]);
        }
        lemma_insert_at(x, s1, j - 1);
        assert(seq![s[0]] + (s1.subrange(0, j - 1) + seq![x] + s1.subrange(
            j - 1,
            s1.len() as int,
        )) =~= s.subrange(0, j) + seq![x] + s.subrange(j, s.len() as int));
    }
}

/// Sorts the table by the key order; the result is the canonical order of
/// exactly the given entries.
pub fn sort_icons(icons: Vec<ResolvedIcon>) -> (r: Vec<ResolvedIcon>)
    ensures
        icons_view(r@) == sort_spec(icons_view(icons@)),
        sorted_icons(icons_view(r@)),
{
    let ghost all = icons_view(icons@);
    let mut rest = icons;
    let mut acc: Vec<ResolvedIcon> = Vec::new();
    proof {
        assert(icons_view(Seq::<ResolvedIcon>::empty()) =~= Seq::<GIcon>::empty());
    }
    while rest.len() > 0
        invariant
            all == icons_view(icons@),
            sort_spec(all) == sort_fold(icons_view(acc@), icons_view(rest@)),
            sorted_icons(icons_view(acc@)),
        decreases rest.len(),
    {
        let ghost sacc = icons_view(acc@);
        let ghost srest = icons_view(rest@);
        let x = rest.remove(0);
        let ghost gx = x@;
        proof {
            assert(srest[0] == gx);
            assert(icons_view(rest@) =~= srest.subrange(1, srest.len() as int));
        }
        // Find the first position whose entry does not sort before `x`.
        let mut j: usize = 0;
        while j < acc.len() && !key_le_exec(&x.key, &acc[j].key)
            invariant
                0 <= j <= acc.len(),
                sacc == icons_view(acc@),
                gx == x@,
                forall|m: int| 0 <= m < j ==> !key_le(gx.key, (#[trigger] sacc[m]).key),
            decreases acc.len() - j,
        {
            j = j + 1;
        }
        proof {
            lemma_insert_at(gx, sacc, j as int);
        }
        acc.insert(j, x);
        proof {
            assert(icons_view(acc@) =~= sacc.subrange(0, j as int) + seq![gx] + sacc.subrange(
                j as int,
                sacc.len() as int,
            ));
            let na = icons_view(acc@);
            assert(forall|m: int| 0 <= m < j ==> na[m] == sacc[m]);
            assert(na[j as int] == gx);
            assert(forall|m: int| j < m < na.len() ==> na[m] == sacc[m - 1]);
            assert forall|p: int, q: int| 0 <= p < q < na.len() implies key_le(
                (#[trigger] na[p]).key,
                (#[trigger] na[q]).key,
            ) by {
                if q < j {
                    // both inside the unchanged prefix
                } else if p > j as int {
                    // both inside the shifted suffix
                } else if p < j && q == j as int {
                    lemma_key_le_total(gx.key, sacc[p].key);
                } else if p == j as int {
                    // q > j: x sorts no later than the entry it displaced
                    assert(key_le(gx.key, sacc[j as int].key));
                    if q > j + 1 {
                        lemma_key_le_trans(gx.key, sacc[j as int].key, sacc[q - 1].key);
                    }
                } else {
                    // p < j < q
                    lemma_key_le_total(gx.key, sacc[p].key);
                    assert(key_le(sacc[p].key, gx.key));
                    if q == j + 1 {
                        lemma_key_le_trans(sacc[p].key, gx.key, sacc[j as int].key);
                    } else {
                        lemma_key_le_trans(gx.key, sacc[j as int].key, sacc[q - 1].key);
                        lemma_key_le_trans(sacc[p].key, gx.key, sacc[q - 1].key);
                    }
                }
            }
        }
    }
    proof {
        assert(icons_view(rest@) =~= Seq::<GIcon>::empty());
    }
    acc
}

/// Inserting one icon adds exactly that icon to the entries.
proof fn lemma_insert_multiset(x: GIcon, s: Seq<GIcon>)
    ensures
        insert_sorted(x, s).to_multiset() =~= s.to_multiset().insert(x),
    decreases s.len(),
{
    broadcast use vstd::seq_lib::group_to_multiset_ensures, vstd::multiset::group_multiset_axioms;

    if s.len() == 0 {
        assert(seq![x] =~= Seq::<GIcon>::empty().push(x));
    } else if key_le(x.key, s[0].key) {
        vstd::seq_lib::lemma_multiset_commutative(seq![x], s);
        assert(seq![x] =~= Seq::<GIcon>::empty().push(x));
    } else {
        let s1 = s.subrange(1, s.len() as int);
        lemma_insert_multiset(x, s1);
        vstd::seq_lib::lemma_multiset_commutative(seq![s[0]], insert_sorted(x, s1));
        vstd::seq_lib::lemma_multiset_commutative(seq![s[0]], s1);
        assert(s =~= seq![s[0]] + s1);
        assert(seq![s[0]] =~= Seq::<GIcon>::empty().push(s[0]));
    }
}

proof fn lemma_fold_multiset(acc: Seq<GIcon>, rs: Seq<GIcon>)
    ensures
        sort_fold(acc, rs).to_multiset() =~= acc.to_multiset().add(rs.to_multiset()),
    decreases rs.len(),
{
    broadcast use vstd::seq_lib::group_to_multiset_ensures, vstd::multiset::group_multiset_axioms;

    if rs.len() == 0 {
    } else {
        let tail = rs.subrange(1, rs.len() as int);
        lemma_insert_multiset(rs[0], acc);
        lemma_fold_multiset(insert_sorted(rs[0], acc), tail);
        vstd::seq_lib::lemma_multiset_commutative(seq![rs[0]], tail);
        assert(rs =~= seq![rs[0]] + tail);
        assert(seq![rs[0]] =~= Seq::<GIcon>::empty().push(rs[0]));
    }
}

/// Ordering the table neither drops, duplicates nor invents an entry: the
/// canonical order holds exactly the resolved icons.
pub proof fn lemma_sort_preserves_icons(s: Seq<GIcon>)
    ensures
        sort_spec(s).to_multiset() =~= s.to_multiset(),
{
    broadcast use vstd::seq_lib::group_to_multiset_ensures, vstd::multiset::group_multiset_axioms;

    lemma_fold_multiset(Seq::<GIcon>::empty(), s);
}

/// Why emission failed.
#[derive(Debug)]
pub enum EmitError {
    /// Two distinct icons whose names normalize to the same identifier; the
    /// payload holds the two names.
    IdentCollision(String, String),
}

/// Mathematical model of an emission failure.
pub ghost enum GEmitError {
    IdentCollision(Seq<char>, Seq<char>),
}

impl View for EmitError {
    type V = GEmitError;

    open spec fn view(&self) -> GEmitError {
        match self {
            EmitError::IdentCollision(a, b) => GEmitError::IdentCollision(a@, b@),
        }
    }
}

/// Derives every icon's identifier and rejects any collision before a single
/// character of output exists.
pub fn check_idents(icons: &Vec<ResolvedIcon>) -> (r: Result<Vec<String>, EmitError>)
    ensures
        match r {
            Ok(ids) => {
                &&& ids@.len() == icons@.len()
                &&& forall|i: int|
                    0 <= i < ids@.len() ==> (#[trigger] ids@[i])@ == ident_of(
                        icons_view(icons@)[i].key.name,
                    )
                &&& forall|i: int, j: int|
                    0 <= i < j < ids@.len() ==> (#[trigger] ids@[i])@ != (#[trigger] ids@[j])@
            },
            Err(e) => e matches EmitError::IdentCollision(first, second) && exists|i: int, j: int|
                0 <= i < j < icons@.len() && first@ == icons_view(icons@)[i].key.name && second@
                    == icons_view(icons@)[j].key.name && ident_of(icons_view(icons@)[i].key.name)
                    == ident_of(icons_view(icons@)[j].key.name),
        },
{
    let mut ids: Vec<String> = Vec::new();
    let mut i: usize = 0;
    while i < icons.len()
        invariant
            0 <= i <= icons.len(),
            ids@.len() == i,
            forall|m: int|
                0 <= m < i ==> (#[trigger] ids@[m])@ == ident_of(icons_view(icons@)[m].key.name),
        decreases icons.len() - i,
    {
        let id = const_name(&icons[i].key.name);
        ids.push(id);
        i = i + 1;
    }
    let mut a: usize = 0;
    while a < ids.len()
        invariant
            0 <= a <= ids.len(),
            ids@.len() == icons@.len(),
            forall|m: int|
                0 <= m < ids@.len() ==> (#[trigger] ids@[m])@ == ident_of(
                    icons_view(icons@)[m].key.name,
                ),
            forall|p: int, q: int|
                0 <= p < q < ids@.len() && p < a ==> (#[trigger] ids@[p])@ != (
                #[trigger] ids@[q])@,
        decreases ids.len() - a,
    {
        let mut b: usize = a + 1;
        while b < ids.len()
            invariant
                0 <= a < b,
                a + 1 <= b <= ids@.len(),
                ids@.len() == icons@.len(),
                forall|m: int|
                    0 <= m < ids@.len() ==> (#[trigger] ids@[m])@ == ident_of(
                        icons_view(icons@)[m].key.name,
                    ),
                forall|q: int| a < q < b ==> (#[trigger] ids@[q])@ != ids@[a as int]@,
            decreases ids.len() - b,
        {
            if ids[a] == ids[b] {
                return Err(
                    EmitError::IdentCollision(
                        icons[a].key.name.clone(),
                        icons[b].key.name.clone(),
                    ),
                );
            }
            b = b + 1;
        }
        a = a + 1;
    }
    Ok(ids)
}

/// The character of one decimal digit.
pub open spec fn digit_char(d: int) -> char {
    if d == 0 {
        '0'
    } else if d == 1 {
        '1'
    } else if d == 2 {
        '2'
    } else if d == 3 {
        '3'
    } else if d == 4 {
        '4'
    } else if d == 5 {
        '5'
    } else if d == 6 {
        '6'
    } else if d == 7 {
        '7'
    } else if d == 8 {
        '8'
    } else {
        '9'
    }
}

/// The decimal digits of a non-negative number, most significant first.
pub open spec fn dec_digits(n: int) -> Seq<char>
    decreases n,
{
    if n < 10 {
        seq![digit_char(n)]
    } else {
        dec_digits(n / 10).push(digit_char(n % 10))
    }
}

/// A fixed-point value in hundredths rendered with exactly two decimal
/// places, e.g. `-0.50` or `9.00`.
pub open spec fn fixed2(v: int) -> Seq<char> {
    let m = if v >= 0 {
        v
    } else {
        -v
    };
    let sign: Seq<char> = if v < 0 {
        seq!['-']
    } else {
        Seq::<char>::empty()
    };
    sign + dec_digits(m / 100) + seq!['.'] + seq![digit_char((m % 100) / 10), digit_char(m % 10)]
}

/// One decimal digit as a character.
fn digit_char_exec(d: u64) -> (c: char)
    requires
        d <= 9,
    ensures
        c == digit_char(d as int),
{
    match d {
        0 => '0',
        1 => '1',
        2 => '2',
        3 => '3',
        4 => '4',
        5 => '5',
        6 => '6',
        7 => '7',
        8 => '8',
        _ => '9',
    }
}

/// Appends the decimal digits of a number.
fn push_dec(out: &mut Vec<char>, n: u64)
    ensures
        final(out)@ == old(out)@ + dec_digits(n as int),
    decreases n,
{
    if n < 10 {
        let c = digit_char_exec(n);
        out.push(c);
        proof {
            assert(out@ =~= old(out)@ + dec_digits(n as int));
        }
    } else {
        push_dec(out, n / 10);
        let c = digit_char_exec(n % 10);
        out.push(c);
        proof {
            assert(out@ =~= old(out)@ + dec_digits(n as int));
        }
    }
}

/// Appends a fixed-point value with exactly two decimal places.
fn push_fixed2(out: &mut Vec<char>, v: i64)
    ensures
        final(out)@ == old(out)@ + fixed2(v as int),
{
    let m: u64 = if v < 0 {
        out.push('-');
        (-(v as i128)) as u64
    } else {
        v as u64
    };
    push_dec(out, m / 100);
    out.push('.');
    let c1 = digit_char_exec((m % 100) / 10);
    out.push(c1);
    let c2 = digit_char_exec(m % 10);
    out.push(c2);
    proof {
        assert(out@ =~= old(out)@ + fixed2(v as int));
    }
}

/// The text of one point.
pub open spec fn point_text(x: int, y: int) -> Seq<char> {
    "Point { x: "@ + fixed2(x) + ", y: "@ + fixed2(y) + " }"@
}

/// The text of one path command.
pub open spec fn cmd_text(c: crate::scene::GCmd) -> Seq<char> {
    match c {
        crate::scene::GCmd::MoveTo(x, y) => "PathEl::MoveTo("@ + point_text(x, y) + "), "@,
        crate::scene::GCmd::LineTo(x, y) => "PathEl::LineTo("@ + point_text(x, y) + "), "@,
        crate::scene::GCmd::QuadTo(x1, y1, x, y) => "PathEl::QuadTo("@ + point_text(x1, y1)
            + ", "@ + point_text(x, y) + "), "@,
        crate::scene::GCmd::CurveTo(x1, y1, x2, y2, x, y) => "PathEl::CurveTo("@ + point_text(
            x1,
            y1,
        ) + ", "@ + point_text(x2, y2) + ", "@ + point_text(x, y) + "), "@,
        crate::scene::GCmd::Close => "PathEl::ClosePath, "@,
    }
}

/// The text of a command sequence, in order.
pub open spec fn cmds_text(cs: Seq<crate::scene::GCmd>) -> Seq<char>
    decreases cs.len(),
{
    if cs.len() == 0 {
        Seq::<char>::empty()
    } else {
        cmd_text(cs[0]) + cmds_text(cs.subrange(1, cs.len() as int))
    }
}

/// The text of one resolved shape.
pub open spec fn shape_text(s: GShape) -> Seq<char> {
    match s.geom {
        GGeom::Path(cs) => "IconShape::Path { els: &["@ + cmds_text(cs) + "], opacity: "@
            + fixed2(s.opacity) + " }, "@,
        GGeom::Circle(cx, cy, r) => "IconShape::Circle { center: "@ + point_text(cx, cy)
            + ", radius: "@ + fixed2(r) + ", opacity: "@ + fixed2(s.opacity) + " }, "@,
    }
}

/// The text of a shape list, in painter's order.
pub open spec fn shapes_text(ss: Seq<GShape>) -> Seq<char>
    decreases ss.len(),
{
    if ss.len() == 0 {
        Seq::<char>::empty()
    } else {
        shape_text(ss[0]) + shapes_text(ss.subrange(1, ss.len() as int))
    }
}

/// The text of one table entry.
pub open spec fn icon_text(ic: GIcon) -> Seq<char> {
    "\n// "@ + ic.key.variant + "/"@ + ic.key.category + "\npub const "@ + ident_of(ic.key.name)
        + ": IconPaths = IconPaths {\n    paths: &["@ + shapes_text(ic.shapes)
        + "],\n    size: Size { width: "@ + fixed2(ic.size * 100) + ", height: "@ + fixed2(
        ic.size * 100,
    ) + " },\n};\n"@
}

/// The whole table's text, entry by entry.
pub open spec fn table_text(icons: Seq<GIcon>) -> Seq<char>
    decreases icons.len(),
{
    if icons.len() == 0 {
        Seq::<char>::empty()
    } else {
        icon_text(icons[0]) + table_text(icons.subrange(1, icons.len() as int))
    }
}

/// Appends one point's text.
fn push_point(out: &mut Vec<char>, x: i64, y: i64)
    ensures
        final(out)@ == old(out)@ + point_text(x as int, y as int),
{
    extend_chars(out, "Point { x: ");
    push_fixed2(out, x);
    extend_chars(out, ", y: ");
    push_fixed2(out, y);
    extend_chars(out, " }");
    proof {
        assert(out@ =~= old(out)@ + point_text(x as int, y as int));
    }
}

/// Appends one command's text.
fn push_cmd(out: &mut Vec<char>, c: &PathCmd)
    ensures
        final(out)@ == old(out)@ + cmd_text(c@),
{
    match c {
        PathCmd::MoveTo(p) => {
            extend_chars(out, "PathEl::MoveTo(");
            push_point(out, p.x, p.y);
            extend_chars(out, "), ");
        },
        PathCmd::LineTo(p) => {
            extend_chars(out, "PathEl::LineTo(");
            push_point(out, p.x, p.y);
            extend_chars(out, "), ");
        },
        PathCmd::QuadTo(p1, p) => {
            extend_chars(out, "PathEl::QuadTo(");
            push_point(out, p1.x, p1.y);
            extend_chars(out, ", ");
            push_point(out, p.x, p.y);
            extend_chars(out, "), ");
        },
        PathCmd::CurveTo(p1, p2, p) => {
            extend_chars(out, "PathEl::CurveTo(");
            push_point(out, p1.x, p1.y);
            extend_chars(out, ", ");
            push_point(out, p2.x, p2.y);
            extend_chars(out, ", ");
            push_point(out, p.x, p.y);
            extend_chars(out, "), ");
        },
        PathCmd::Close => {
            extend_chars(out, "PathEl::ClosePath, ");
        },
    }
    proof {
        assert(out@ =~= old(out)@ + cmd_text(c@));
    }
}

/// Appends one shape's text.
fn push_shape(out: &mut Vec<char>, s: &OpacityShape)
    ensures
        final(out)@ == old(out)@ + shape_text(s@),
{
    match &s.geometry {
        Geometry::Path(cmds) => {
            extend_chars(out, "IconShape::Path { els: &[");
            let ghost base = out@;
            let ghost allv = cmds@.map_values(|c: PathCmd| c@);
            let ghost mut done: Seq<char> = Seq::<char>::empty();
            let mut i: usize = 0;
            proof {
                assert(allv.subrange(0, allv.len() as int) =~= allv);
                assert(out@ =~= base + done);
            }
            while i < cmds.len()
                invariant
                    0 <= i <= cmds.len(),
                    allv == cmds@.map_values(|c: PathCmd| c@),
                    out@ == base + done,
                    cmds_text(allv) == done + cmds_text(
                        allv.subrange(i as int, allv.len() as int),
                    ),
                decreases cmds.len() - i,
            {
                let ghost head = allv.subrange(i as int, allv.len() as int);
                let ghost tail = allv.subrange(i as int + 1, allv.len() as int);
                proof {
                    assert(head[0] == allv[i as int]);
                    assert(head.subrange(1, head.len() as int) =~= tail);
                }
                push_cmd(out, &cmds[i]);
                proof {
                    assert(out@ =~= base + (done + cmd_text(allv[i as int])));
                    assert((done + cmd_text(allv[i as int])) + cmds_text(tail) =~= done + (
                    cmd_text(allv[i as int]) + cmds_text(tail)));
                    done = done + cmd_text(allv[i as int]);
                }
                i = i + 1;
            }
            proof {
                assert(allv.subrange(allv.len() as int, allv.len() as int) =~= Seq::<
                    crate::scene::GCmd,
                >::empty());
                assert(done + Seq::<char>::empty() =~= done);
            }
            extend_chars(out, "], opacity: ");
            push_fixed2(out, s.opacity as i64);
            extend_chars(out, " }, ");
            proof {
                assert(out@ =~= old(out)@ + shape_text(s@));
            }
        },
        Geometry::Circle(c) => {
            extend_chars(out, "IconShape::Circle { center: ");
            push_point(out, c.cx, c.cy);
            extend_chars(out, ", radius: ");
            push_fixed2(out, c.r);
            extend_chars(out, ", opacity: ");
            push_fixed2(out, s.opacity as i64);
            extend_chars(out, " }, ");
            proof {
                assert(out@ =~= old(out)@ + shape_text(s@));
            }
        },
    }
}

/// Appends one table entry's text.
fn push_icon(out: &mut Vec<char>, ic: &ResolvedIcon, id: &String)
    requires
        id@ == ident_of(ic.key.name@),
    ensures
        final(out)@ == old(out)@ + icon_text(ic@),
{
    extend_chars(out, "\n// ");
    extend_chars(out, ic.key.variant.as_str());
    extend_chars(out, "/");
    extend_chars(out, ic.key.category.as_str());
    extend_chars(out, "\npub const ");
    extend_chars(out, id.as_str());
    extend_chars(out, ": IconPaths = IconPaths {\n    paths: &[");
    let ghost base = out@;
    let ghost allv = shapes_view(ic.shapes@);
    let ghost mut done: Seq<char> = Seq::<char>::empty();
    let mut i: usize = 0;
    proof {
        assert(allv.subrange(0, allv.len() as int) =~= allv);
        assert(out@ =~= base + done);
    }
    while i < ic.shapes.len()
        invariant
            0 <= i <= ic.shapes.len(),
            allv == shapes_view(ic.shapes@),
            out@ == base + done,
            shapes_text(allv) == done + shapes_text(allv.subrange(i as int, allv.len() as int)),
        decreases ic.shapes.len() - i,
    {
        let ghost head = allv.subrange(i as int, allv.len() as int);
        let ghost tail = allv.subrange(i as int + 1, allv.len() as int);
        proof {
            assert(head[0] == allv[i as int]);
            assert(head.subrange(1, head.len() as int) =~= tail);
        }
        push_shape(out, &ic.shapes[i]);
        proof {
            assert(out@ =~= base + (done + shape_text(allv[i as int])));
            assert((done + shape_text(allv[i as int])) + shapes_text(tail) =~= done + (shape_text(
                allv[i as int],
            ) + shapes_text(tail)));
            done = done + shape_text(allv[i as int]);
        }
        i = i + 1;
    }
    proof {
        assert(allv.subrange(allv.len() as int, allv.len() as int) =~= Seq::<GShape>::empty());
        assert(done + Seq::<char>::empty() =~= done);
    }
    extend_chars(out, "],\n    size: Size { width: ");
    push_fixed2(out, (ic.size as i64) * 100);
    extend_chars(out, ", height: ");
    push_fixed2(out, (ic.size as i64) * 100);
    extend_chars(out, " },\n};\n");
    proof {
        assert(out@ =~= old(out)@ + icon_text(ic@));
    }
}

/// Orders the table canonically, rejects identifier collisions before any
/// output exists, and serializes every entry with fixed two-decimal
/// precision. Equal icon sets give the identical text; a collision leaves no
/// partial output behind.
pub fn emit_table(icons: Vec<ResolvedIcon>) -> (r: Result<String, EmitError>)
    ensures
        ({
            let canon = sort_spec(icons_view(icons@));
            match r {
                Ok(s) => s@ == table_text(canon) && forall|i: int, j: int|
                    0 <= i < j < canon.len() ==> ident_of((#[trigger] canon[i]).key.name)
                        != ident_of((#[trigger] canon[j]).key.name),
                Err(e) => e matches EmitError::IdentCollision(first, second)
                    && exists|i: int, j: int|
                    0 <= i < j < canon.len() && first@ == (#[trigger] canon[i]).key.name
                        && second@ == (#[trigger] canon[j]).key.name && ident_of(
                        canon[i].key.name,
                    ) == ident_of(canon[j].key.name),
            }
        }),
{
    let ghost canon = sort_spec(icons_view(icons@));
    let sorted = sort_icons(icons);
    let ids = match check_idents(&sorted) {
        Err(e) => {
            return Err(e);
        },
        Ok(ids) => ids,
    };
    let mut out: Vec<char> = Vec::new();
    let ghost mut done: Seq<char> = Seq::<char>::empty();
    let mut i: usize = 0;
    proof {
        assert(canon.subrange(0, canon.len() as int) =~= canon);
        assert(out@ =~= done);
    }
    while i < sorted.len()
        invariant
            0 <= i <= sorted.len(),
            canon == icons_view(sorted@),
            ids@.len() == sorted@.len(),
            forall|m: int|
                0 <= m < ids@.len() ==> (#[trigger] ids@[m])@ == ident_of(canon[m].key.name),
            out@ == done,
            table_text(canon) == done + table_text(canon.subrange(i as int, canon.len() as int)),
        decreases sorted.len() - i,
    {
        let ghost head = canon.subrange(i as int, canon.len() as int);
        let ghost tail = canon.subrange(i as int + 1, canon.len() as int);
        proof {
            assert(head[0] == canon[i as int]);
            assert(head.subrange(1, head.len() as int) =~= tail);
        }
        push_icon(&mut out, &sorted[i], &ids[i]);
        proof {
            assert((done + icon_text(canon[i as int])) + table_text(tail) =~= done + (icon_text(
                canon[i as int],
            ) + table_text(tail)));
            done = done + icon_text(canon[i as int]);
        }
        i = i + 1;
    }
    proof {
        assert(canon.subrange(canon.len() as int, canon.len() as int) =~= Seq::<GIcon>::empty());
        assert(done + Seq::<char>::empty() =~= done);
        assert forall|p: int, q: int| 0 <= p < q < canon.len() implies ident_of(
            (#[trigger] canon[p]).key.name,
        ) != ident_of((#[trigger] canon[q]).key.name) by {
            assert(ids@[p]@ == ident_of(canon[p].key.name));
            assert(ids@[q]@ == ident_of(canon[q].key.name));
            assert(ids@[p]@ != ids@[q]@);
        }
    }
    Ok(string_from_chars(&out))
}

} // verus!
