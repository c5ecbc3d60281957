//! The HTTP side of the server: its routes, its password, and the dots it
//! stores, which carry no id.

use vstd::prelude::*;

verus! {

/// A dot as the HTTP side stores it. `x`, `y` and `size` hold the bit
/// patterns of the `f32` values (as `f32::to_bits` gives them); two dots are
/// equal as their `f32` fields compare under IEEE 754, see [`dot_eq`].
#[derive(Clone, Copy, Debug)]
pub struct Dot {
    pub x: u32,
    pub y: u32,
    pub r: u8,
    pub g: u8,
    pub b: u8,
    pub size: u32,
}

/// The `f32` of these bits is a NaN: all exponent bits set and a non-zero
/// fraction.
pub open spec fn f32_is_nan(bits: u32) -> bool {
    (bits & 0x7f80_0000u32) == 0x7f80_0000u32 && (bits & 0x007f_ffffu32) != 0u32
}

/// `==` on the `f32` values of these bits: false when either is a NaN, true
/// for `0.0` against `-0.0`, else true when the bits agree.
pub open spec fn f32_eq(a: u32, b: u32) -> bool {
    !f32_is_nan(a) && !f32_is_nan(b) && (a == b || ((a & 0x7fff_ffffu32) == 0u32 && (b
        & 0x7fff_ffffu32) == 0u32))
}

/// `==` on dots, field by field.
pub open spec fn dot_eq(a: Dot, b: Dot) -> bool {
    f32_eq(a.x, b.x) && f32_eq(a.y, b.y) && a.r == b.r && a.g == b.g && a.b == b.b && f32_eq(
        a.size,
        b.size,
    )
}

fn floats_equal(a: u32, b: u32) -> (eq: bool)
    ensures
        eq == f32_eq(a, b),
{
    let a_nan = (a & 0x7f80_0000u32) == 0x7f80_0000u32 && (a & 0x007f_ffffu32) != 0u32;
    let b_nan = (b & 0x7f80_0000u32) == 0x7f80_0000u32 && (b & 0x007f_ffffu32) != 0u32;
    !a_nan && !b_nan && (a == b || ((a & 0x7fff_ffffu32) == 0u32 && (b & 0x7fff_ffffu32) == 0u32))
}

/// Whether two dots are equal, as `==` on them compares.
pub fn dots_equal(a: &Dot, b: &Dot) -> (eq: bool)
    ensures
        eq == dot_eq(*a, *b),
{
    floats_equal(a.x, b.x) && floats_equal(a.y, b.y) && a.r == b.r && a.g == b.g && a.b == b.b
        && floats_equal(a.size, b.size)
}

/// The dots in order with each dot dropped that equals one already taken.
pub open spec fn unique(dots: Seq<Dot>) -> Seq<Dot>
    decreases dots.len(),
{
    if dots.len() == 0 {
        Seq::<Dot>::empty()
    } else {
        let prev = unique(dots.drop_last());
        if exists|j: int| 0 <= j < prev.len() && dot_eq(prev[j], dots.last()) {
            prev
        } else {
            prev.push(dots.last())
        }
    }
}

fn contains_equal(found: &Vec<Dot>, d: &Dot) -> (r: bool)
    ensures
        r == exists|j: int| 0 <= j < found@.len() && dot_eq(found@[j], *d),
{
    let n = found.len();
    let mut j: usize = 0;
    while j < n
        invariant
            n == found@.len(),
            j <= n,
            forall|k: int| 0 <= k < j ==> !dot_eq(found@[k], *d),
        decreases n - j,
    {
        if dots_equal(&found[j], d) {
            return true;
        }
        j = j + 1;
    }
    false
}

/// The dots with each dot dropped that equals one before it; the list given
/// is left as it is.
pub fn get_unique_dots(dots: &mut Vec<Dot>) -> (result: Vec<Dot>)
    ensures
        final(dots)@ == old(dots)@,
        result@ == unique(old(dots)@),
{
    let mut result: Vec<Dot> = Vec::new();
    let n = dots.len();
    let mut i: usize = 0;
    while i < n
        invariant
            n == dots@.len(),
            dots@ == old(dots)@,
            i <= n,
            result@ == unique(dots@.take(i as int)),
        decreases n - i,
    {
        assert(dots@.take(i + 1).drop_last() =~= dots@.take(i as int));
        assert(dots@.take(i + 1).last() == dots@[i as int]);
        let d = dots[i];
        if !contains_equal(&result, &d) {
            result.push(d);
        }
        i = i + 1;
    }
    assert(dots@.take(n as int) =~= dots@);
    result
}

/// Law: equal dots agree as `f32` values on `x`, `y` and `size` and exactly
/// on `r`, `g` and `b`; so two dots that differ in any of these fields are
/// not equal.
pub proof fn lemma_equal_dots_agree(a: Dot, b: Dot)
    requires
        dot_eq(a, b),
    ensures
        f32_eq(a.x, b.x),
        f32_eq(a.y, b.y),
        f32_eq(a.size, b.size),
        a.r == b.r,
        a.g == b.g,
        a.b == b.b,
{
}

/// Law: dots that agree as `f32` values on `x`, `y` and `size` and exactly
/// on `r`, `g` and `b` are equal.
pub proof fn lemma_agreeing_dots_are_equal(a: Dot, b: Dot)
    requires
        f32_eq(a.x, b.x),
        f32_eq(a.y, b.y),
        f32_eq(a.size, b.size),
        a.r == b.r,
        a.g == b.g,
        a.b == b.b,
    ensures
        dot_eq(a, b),
{
}

/// Law: `f32` equality on bit patterns is that of IEEE 754: a NaN equals
/// nothing, `0.0` equals `-0.0`, and otherwise values are equal exactly when
/// their bits are.
pub proof fn lemma_f32_eq_is_ieee(a: u32, b: u32)
    ensures
        f32_is_nan(a) ==> !f32_eq(a, b),
        f32_is_nan(b) ==> !f32_eq(a, b),
        (a == 0u32 || a == 0x8000_0000u32) && (b == 0u32 || b == 0x8000_0000u32) ==> f32_eq(a, b),
        !f32_is_nan(a) ==> f32_eq(a, a),
        f32_eq(a, b) == f32_eq(b, a),
        a != b && f32_eq(a, b) ==> (a == 0u32 || a == 0x8000_0000u32) && (b == 0u32 || b
            == 0x8000_0000u32),
{
    assert((a & 0x7fff_ffffu32) == 0u32 <==> (a == 0u32 || a == 0x8000_0000u32)) by (bit_vector);
    assert((b & 0x7fff_ffffu32) == 0u32 <==> (b == 0u32 || b == 0x8000_0000u32)) by (bit_vector);
    assert(!f32_is_nan(0u32) && !f32_is_nan(0x8000_0000u32)) by (bit_vector);
}

/// Law: a list none of whose dots equals an earlier one is kept whole.
pub proof fn lemma_unique_keeps_distinct_dots(dots: Seq<Dot>)
    requires
        forall|i: int, j: int| 0 <= i < j < dots.len() ==> !dot_eq(#[trigger] dots[i], #[trigger] dots[j]),
    ensures
        unique(dots) == dots,
    decreases dots.len(),
{
    if dots.len() > 0 {
        let t = dots.drop_last();
        lemma_unique_keeps_distinct_dots(t);
        assert(unique(t) == t);
        assert(!exists|j: int| 0 <= j < t.len() && dot_eq(t[j], dots.last())) by {
            assert forall|j: int| 0 <= j < t.len() implies !dot_eq(t[j], dots.last()) by {
                assert(dots[j] == t[j]);
                assert(dots[dots.len() - 1] == dots.last());
            }
        }
        assert(t.push(dots.last()) =~= dots);
    }
}

/// Law: no two dots left by [`get_unique_dots`] are equal.
pub proof fn lemma_unique_has_no_equal_pair(dots: Seq<Dot>)
    ensures
        forall|i: int, j: int|
            0 <= i < j < unique(dots).len() ==> !dot_eq(
                #[trigger] unique(dots)[i],
                #[trigger] unique(dots)[j],
            ),
    decreases dots.len(),
{
    if dots.len() > 0 {
        let t = dots.drop_last();
        lemma_unique_has_no_equal_pair(t);
        let prev = unique(t);
        let u = unique(dots);
        assert forall|i: int, j: int| 0 <= i < j < u.len() implies !dot_eq(
            #[trigger] u[i],
            #[trigger] u[j],
        ) by {
            if j < prev.len() {
                assert(u[i] == prev[i] && u[j] == prev[j]);
            } else {
                assert(u[i] == prev[i]);
                assert(u[j] == dots.last());
            }
        }
    }
}

/// Law: every dot given either stays or equals a dot that stays.
pub proof fn lemma_unique_covers(dots: Seq<Dot>)
    ensures
        forall|i: int|
            0 <= i < dots.len() ==> exists|j: int|
                0 <= j < unique(dots).len() && (unique(dots)[j] == #[trigger] dots[i] || dot_eq(
                    unique(dots)[j],
                    dots[i],
                )),
    decreases dots.len(),
{
    if dots.len() > 0 {
        let t = dots.drop_last();
        lemma_unique_covers(t);
        let prev = unique(t);
        let u = unique(dots);
        assert forall|i: int| 0 <= i < dots.len() implies exists|j: int|
            0 <= j < u.len() && (u[j] == #[trigger] dots[i] || dot_eq(u[j], dots[i])) by {
            if i < t.len() {
                assert(t[i] == dots[i]);
                let j = choose|j: int| 0 <= j < prev.len() && (prev[j] == t[i] || dot_eq(prev[j], t[i]));
                assert(u[j] == prev[j]);
            } else {
                if exists|j: int| 0 <= j < prev.len() && dot_eq(prev[j], dots.last()) {
                    let j = choose|j: int| 0 <= j < prev.len() && dot_eq(prev[j], dots.last());
                    assert(u[j] == prev[j]);
                } else {
                    assert(u[prev.len() as int] == dots.last());
                }
            }
        }
    }
}

/// Dots of which no two are equal come through unchanged.
proof fn lemma_unique_of_distinct(dots: Seq<Dot>)
    requires
        forall|i: int, j: int|
            0 <= i < j < dots.len() ==> !dot_eq(#[trigger] dots[i], #[trigger] dots[j]),
    ensures
        unique(dots) == dots,
    decreases dots.len(),
{
    if dots.len() > 0 {
        let t = dots.drop_last();
        assert forall|i: int, j: int| 0 <= i < j < t.len() implies !dot_eq(
            #[trigger] t[i],
            #[trigger] t[j],
        ) by {
            assert(t[i] == dots[i] && t[j] == dots[j]);
        }
        lemma_unique_of_distinct(t);
        assert forall|j: int| 0 <= j < t.len() implies !dot_eq(#[trigger] t[j], dots.last()) by {
            assert(t[j] == dots[j]);
            assert(dots.last() == dots[dots.len() - 1]);
        }
        assert(t.push(dots.last()) =~= dots);
    }
}

/// Law: dropping repeated dots a second time drops nothing more.
pub proof fn lemma_unique_idempotent(dots: Seq<Dot>)
    ensures
        unique(unique(dots)) == unique(dots),
{
    lemma_unique_has_no_equal_pair(dots);
    lemma_unique_of_distinct(unique(dots));
}

/// The dots a new canvas file starts with: a single dot with every field
/// zero.
pub fn blank_canvas() -> (dots: Vec<Dot>)
    ensures
        dots@.len() == 1,
        dots@[0].x == 0 && dots@[0].y == 0 && dots@[0].size == 0,
        dots@[0].r == 0 && dots@[0].g == 0 && dots@[0].b == 0,
{
    let mut dots: Vec<Dot> = Vec::new();
    dots.push(Dot { x: 0, y: 0, r: 0, g: 0, b: 0, size: 0 });
    dots
}

/// Whether a request carries the server's password, `supersecret`.
pub fn pass_accepted(pass: &str) -> (ok: bool)
    ensures
        ok == (pass@ == "supersecret"@),
{
    pass.to_owned() == "supersecret".to_owned()
}

/// The HTTP methods the routes answer.
#[derive(Clone, Copy, Debug, PartialEq, Eq, Structural)]
pub enum Method {
    Get,
    Post,
}

/// The handlers behind the routes.
#[derive(Clone, Copy, Debug, PartialEq, Eq, Structural)]
pub enum Handler {
    /// Sends a room's file, making it first if it is missing.
    Retrieve,
    /// Lays the posted dots over a room's file.
    Upload,
    /// Deletes a room's file.
    Delete,
}

/// A route: the method, the base it is mounted at, the path below the base,
/// the name of the request body if it takes one, and its handler.
pub struct Route {
    pub method: Method,
    pub base: String,
    pub path: String,
    pub data: Option<String>,
    pub handler: Handler,
}

/// `r` is the route `method base path -> handler` with the given body name.
pub open spec fn route_is(
    r: Route,
    method: Method,
    base: Seq<char>,
    path: Seq<char>,
    data: Option<Seq<char>>,
    handler: Handler,
) -> bool {
    &&& r.method == method
    &&& r.base@ == base
    &&& r.path@ == path
    &&& match (r.data, data) {
        (Some(d), Some(e)) => d@ == e,
        (None, None) => true,
        _ => false,
    }
    &&& r.handler == handler
}

/// The routes the HTTP server is built with: `GET /<id>/<pass>` sends a
/// room, `POST /<id>/<pass>` with the dots as body adds to it, and
/// `GET /delete/<id>/<pass>` deletes it.
pub fn rocket() -> (routes: Vec<Route>)
    ensures
        routes@.len() == 3,
        route_is(routes@[0], Method::Get, "/"@, "/<id>/<pass>"@, None, Handler::Retrieve),
        route_is(
            routes@[1],
            Method::Post,
            "/"@,
            "/<id>/<pass>"@,
            Some("<dots>"@),
            Handler::Upload,
        ),
        route_is(routes@[2], Method::Get, "/delete/"@, "/<id>/<pass>"@, None, Handler::Delete),
{
    let mut routes: Vec<Route> = Vec::new();
    routes.push(
        Route {
            method: Method::Get,
            base: "/".to_owned(),
            path: "/<id>/<pass>".to_owned(),
            data: None,
            handler: Handler::Retrieve,
        },
    );
    routes.push(
        Route {
            method: Method::Post,
            base: "/".to_owned(),
            path: "/<id>/<pass>".to_owned(),
            data: Some("<dots>".to_owned()),
            handler: Handler::Upload,
        },
    );
    routes.push(
        Route {
            method: Method::Get,
            base: "/delete/".to_owned(),
            path: "/<id>/<pass>".to_owned(),
            data: None,
            handler: Handler::Delete,
        },
    );
    routes
}

} // verus!
