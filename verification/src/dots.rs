//! The dots of a room as the websocket side keeps them: each dot has an id by
//! which it can be removed again.

use crate::trusted::string_views;
use vstd::prelude::*;

verus! {

/// A dot of a room. `x`, `y` and `size` hold the bit patterns of the `f32`
/// values (as `f32::to_bits` gives them); nothing here reads them as numbers.
#[derive(Debug)]
pub struct Dot {
    pub x: u32,
    pub y: u32,
    pub r: u8,
    pub g: u8,
    pub b: u8,
    pub a: u8,
    pub size: u32,
    pub id: String,
}

impl Clone for Dot {
    /// The same dot.
    fn clone(&self) -> (c: Dot)
        ensures
            c == *self,
    {
        Dot {
            x: self.x,
            y: self.y,
            r: self.r,
            g: self.g,
            b: self.b,
            a: self.a,
            size: self.size,
            id: self.id.clone(),
        }
    }
}

/// The dots laid over a room: those already there, then the new ones.
pub fn layer_dots<T>(existing: Vec<T>, new: Vec<T>) -> (layered: Vec<T>)
    ensures
        layered@ == existing@ + new@,
{
    let mut layered = existing;
    let mut new = new;
    layered.append(&mut new);
    layered
}

/// The dots whose id is not among `ids`, in their order.
pub open spec fn kept(dots: Seq<Dot>, ids: Seq<Seq<char>>) -> Seq<Dot>
    decreases dots.len(),
{
    if dots.len() == 0 {
        Seq::<Dot>::empty()
    } else {
        let prev = kept(dots.drop_last(), ids);
        if ids.contains(dots.last().id@) {
            prev
        } else {
            prev.push(dots.last())
        }
    }
}

/// Whether `id` is one of `ids`.
pub fn id_listed(ids: &Vec<String>, id: &String) -> (found: bool)
    ensures
        found == string_views(ids@).contains(id@),
{
    let n = ids.len();
    let mut j: usize = 0;
    while j < n
        invariant
            n == ids@.len(),
            j <= n,
            forall|k: int| 0 <= k < j ==> ids@[k]@ != id@,
        decreases n - j,
    {
        if ids[j] == *id {
            assert(string_views(ids@)[j as int] == id@);
            return true;
        }
        j = j + 1;
    }
    proof {
        if string_views(ids@).contains(id@) {
            let k = choose|k: int| 0 <= k < string_views(ids@).len() && string_views(ids@)[k]
                == id@;
            assert(ids@[k]@ == id@);
        }
    }
    false
}

/// Removes from `dots` every dot whose id is among `ids`, keeping the order
/// of the others.
pub fn retain_dots(dots: &mut Vec<Dot>, ids: &Vec<String>)
    ensures
        final(dots)@ == kept(old(dots)@, string_views(ids@)),
{
    let mut out: Vec<Dot> = Vec::new();
    let n = dots.len();
    let mut i: usize = 0;
    while i < n
        invariant
            n == dots@.len(),
            dots@ == old(dots)@,
            i <= n,
            out@ == kept(dots@.take(i as int), string_views(ids@)),
        decreases n - i,
    {
        assert(dots@.take(i + 1).drop_last() =~= dots@.take(i as int));
        assert(dots@.take(i + 1).last() == dots@[i as int]);
        let d = &dots[i];
        if !id_listed(ids, &d.id) {
            out.push(d.clone());
        }
        i = i + 1;
    }
    assert(dots@.take(n as int) =~= dots@);
    *dots = out;
}

/// The dots a new room's file starts with: a single dot with every field zero
/// and an empty id.
pub fn fresh_room_dots() -> (dots: Vec<Dot>)
    ensures
        dots@.len() == 1,
        dots@[0].x == 0 && dots@[0].y == 0 && dots@[0].size == 0,
        dots@[0].r == 0 && dots@[0].g == 0 && dots@[0].b == 0 && dots@[0].a == 0,
        dots@[0].id@ == Seq::<char>::empty(),
{
    let mut dots: Vec<Dot> = Vec::new();
    dots.push(Dot { x: 0, y: 0, r: 0, g: 0, b: 0, a: 0, size: 0, id: String::new() });
    dots
}

/// A dot of `dots` kept at `j` is the dot of `dots` at some index, in order.
proof fn lemma_kept_from(dots: Seq<Dot>, ids: Seq<Seq<char>>, j: int)
    requires
        0 <= j < kept(dots, ids).len(),
    ensures
        dots.contains(kept(dots, ids)[j]),
        !ids.contains(kept(dots, ids)[j].id@),
    decreases dots.len(),
{
    if dots.len() > 0 {
        let prev = kept(dots.drop_last(), ids);
        if j < prev.len() {
            lemma_kept_from(dots.drop_last(), ids, j);
            let k = choose|k: int| 0 <= k < dots.drop_last().len() && dots.drop_last()[k] == prev[j];
            assert(dots[k] == prev[j]);
        } else {
            assert(dots[dots.len() - 1] == dots.last());
        }
    }
}

/// Law: no dot left after a removal carries a removed id, and every dot left
/// was there before.
pub proof fn lemma_kept_sound(dots: Seq<Dot>, ids: Seq<Seq<char>>)
    ensures
        forall|j: int|
            0 <= j < kept(dots, ids).len() ==> dots.contains(#[trigger] kept(dots, ids)[j])
                && !ids.contains(kept(dots, ids)[j].id@),
{
    assert forall|j: int| 0 <= j < kept(dots, ids).len() implies dots.contains(
        #[trigger] kept(dots, ids)[j],
    ) && !ids.contains(kept(dots, ids)[j].id@) by {
        lemma_kept_from(dots, ids, j);
    }
}

/// Law: removal works piece by piece; removing from two lists laid end to
/// end is removing from each.
pub proof fn lemma_kept_concat(a: Seq<Dot>, b: Seq<Dot>, ids: Seq<Seq<char>>)
    ensures
        kept(a + b, ids) == kept(a, ids) + kept(b, ids),
    decreases b.len(),
{
    if b.len() == 0 {
        assert(a + b =~= a);
        assert(kept(a, ids) + kept(b, ids) =~= kept(a, ids));
    } else {
        lemma_kept_concat(a, b.drop_last(), ids);
        assert((a + b).drop_last() =~= a + b.drop_last());
        assert((a + b).last() == b.last());
        if ids.contains(b.last().id@) {
        } else {
            assert(kept(a, ids) + kept(b.drop_last(), ids).push(b.last()) =~= (kept(a, ids) + kept(
                b.drop_last(),
                ids,
            )).push(b.last()));
        }
    }
}

/// Law: dots none of whose ids are listed are all kept.
pub proof fn lemma_kept_untouched(dots: Seq<Dot>, ids: Seq<Seq<char>>)
    requires
        forall|i: int| 0 <= i < dots.len() ==> !ids.contains(#[trigger] dots[i].id@),
    ensures
        kept(dots, ids) == dots,
    decreases dots.len(),
{
    if dots.len() > 0 {
        assert(!ids.contains(dots[dots.len() - 1].id@));
        lemma_kept_untouched(dots.drop_last(), ids);
        assert(dots.drop_last().push(dots.last()) =~= dots);
    }
}

/// Law: dots all of whose ids are listed are all removed.
pub proof fn lemma_kept_all_listed(dots: Seq<Dot>, ids: Seq<Seq<char>>)
    requires
        forall|i: int| 0 <= i < dots.len() ==> ids.contains(#[trigger] dots[i].id@),
    ensures
        kept(dots, ids) == Seq::<Dot>::empty(),
    decreases dots.len(),
{
    if dots.len() > 0 {
        assert(ids.contains(dots[dots.len() - 1].id@));
        lemma_kept_all_listed(dots.drop_last(), ids);
    }
}

/// Law: removing the same ids twice removes no more than once.
pub proof fn lemma_kept_idempotent(dots: Seq<Dot>, ids: Seq<Seq<char>>)
    ensures
        kept(kept(dots, ids), ids) == kept(dots, ids),
{
    lemma_kept_sound(dots, ids);
    lemma_kept_untouched(kept(dots, ids), ids);
}

/// Law: removing the ids of dots just laid over a room takes those dots
/// away again; what is left is the room before, less its own dots of those
/// ids.
pub proof fn lemma_remove_undoes_layer(existing: Seq<Dot>, new: Seq<Dot>, ids: Seq<Seq<char>>)
    requires
        forall|i: int| 0 <= i < new.len() ==> ids.contains(#[trigger] new[i].id@),
    ensures
        kept(existing + new, ids) == kept(existing, ids),
{
    lemma_kept_concat(existing, new, ids);
    lemma_kept_all_listed(new, ids);
    assert(kept(existing, ids) + Seq::<Dot>::empty() =~= kept(existing, ids));
}

/// Law: laying `a` and then `b` over a room leaves it as laying `a` and `b`
/// together, in that order, at once.
pub proof fn lemma_layer_twice(existing: Seq<Dot>, a: Seq<Dot>, b: Seq<Dot>)
    ensures
        (existing + a) + b == existing + (a + b),
{
    assert((existing + a) + b =~= existing + (a + b));
}

/// Law: when none of a room's dots carries a listed id and every dot laid over
/// it does, removing the listed ids gives back the room as it was.
pub proof fn lemma_remove_restores_room(existing: Seq<Dot>, new: Seq<Dot>, ids: Seq<Seq<char>>)
    requires
        forall|i: int| 0 <= i < existing.len() ==> !ids.contains(#[trigger] existing[i].id@),
        forall|i: int| 0 <= i < new.len() ==> ids.contains(#[trigger] new[i].id@),
    ensures
        kept(existing + new, ids) == existing,
{
    lemma_remove_undoes_layer(existing, new, ids);
    lemma_kept_untouched(existing, ids);
}

} // verus!
