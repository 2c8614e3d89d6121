//! Dirty-region coalescing: absorbing a new rectangle into an ordered list
//! so that no element of the list contains another.
use vstd::prelude::*;

verus! {

/// An axis-aligned region with inclusive minimum and exclusive maximum
/// corners, in panel coordinates.
#[derive(Debug, Clone, Copy, PartialEq, Eq, Structural)]
pub struct Region {
    pub min_x: i32,
    pub min_y: i32,
    pub max_x: i32,
    pub max_y: i32,
}

pub open spec fn region_contains(a: Region, b: Region) -> bool {
    a.min_x <= b.min_x && b.max_x <= a.max_x && a.min_y <= b.min_y && b.max_y <= a.max_y
}

/// `a` extends `b`: same top and bottom and touching or overlapping
/// horizontally, or same left and right and touching or overlapping
/// vertically.
pub open spec fn region_extends(a: Region, b: Region) -> bool {
    (a.min_y == b.min_y && a.max_y == b.max_y && a.min_x <= b.max_x && b.min_x <= a.max_x) || (
    a.min_x == b.min_x && a.max_x == b.max_x && a.min_y <= b.max_y && b.min_y <= a.max_y)
}

pub open spec fn spec_union(a: Region, b: Region) -> Region {
    Region {
        min_x: if a.min_x <= b.min_x { a.min_x } else { b.min_x },
        min_y: if a.min_y <= b.min_y { a.min_y } else { b.min_y },
        max_x: if a.max_x >= b.max_x { a.max_x } else { b.max_x },
        max_y: if a.max_y >= b.max_y { a.max_y } else { b.max_y },
    }
}

/// Any of the three relations that keep `rect` from being appended.
pub open spec fn region_interacts(r: Region, rect: Region) -> bool {
    region_contains(r, rect) || region_contains(rect, r) || region_extends(rect, r)
}

/// Coordinates within the panel's first quadrant; keeps width and height
/// arithmetic free of overflow.
pub open spec fn region_wf(r: Region) -> bool {
    0 <= r.min_x <= r.max_x && 0 <= r.min_y <= r.max_y
}

impl Region {
    pub fn contains(&self, other: &Region) -> (r: bool)
        ensures
            r == region_contains(*self, *other),
    {
        self.min_x <= other.min_x && other.max_x <= self.max_x && self.min_y <= other.min_y
            && other.max_y <= self.max_y
    }

    pub fn extends(&self, other: &Region) -> (r: bool)
        ensures
            r == region_extends(*self, *other),
    {
        (self.min_y == other.min_y && self.max_y == other.max_y && self.min_x <= other.max_x
            && other.min_x <= self.max_x) || (self.min_x == other.min_x && self.max_x
            == other.max_x && self.min_y <= other.max_y && other.min_y <= self.max_y)
    }

    /// Grow to the bounding box of the two regions.
    pub fn absorb(&mut self, other: &Region)
        ensures
            *final(self) == spec_union(*old(self), *other),
    {
        if other.min_x < self.min_x {
            self.min_x = other.min_x;
        }
        if other.min_y < self.min_y {
            self.min_y = other.min_y;
        }
        if other.max_x > self.max_x {
            self.max_x = other.max_x;
        }
        if other.max_y > self.max_y {
            self.max_y = other.max_y;
        }
    }
}

/// What absorbing `rect` into `list` leaves behind: scanning from the front,
/// the first element that contains `rect` drops it, the first that `rect`
/// contains is replaced, the first that `rect` extends is grown to the
/// union; with no such element `rect` is appended.
pub open spec fn spec_absorb(list: Seq<Region>, rect: Region) -> Seq<Region>
    decreases list.len(),
{
    if list.len() == 0 {
        seq![rect]
    } else if region_contains(list[0], rect) {
        list
    } else if region_contains(rect, list[0]) {
        list.update(0, rect)
    } else if region_extends(rect, list[0]) {
        list.update(0, spec_union(list[0], rect))
    } else {
        seq![list[0]] + spec_absorb(list.subrange(1, list.len() as int), rect)
    }
}

/// No element of the list contains another.
pub open spec fn pairwise_unnested(list: Seq<Region>) -> bool {
    forall|i: int, j: int|
        0 <= i < list.len() && 0 <= j < list.len() && i != j ==> !region_contains(
            #[trigger] list[i],
            #[trigger] list[j],
        )
}

/// The element that would stand at the first interacting position.
pub open spec fn absorbed_elem(r: Region, rect: Region) -> Region {
    if region_contains(r, rect) {
        r
    } else if region_contains(rect, r) {
        rect
    } else {
        spec_union(r, rect)
    }
}

/// The inputs on which absorbing keeps the list free of nesting: at the
/// first interacting position, the element that replaces it must not nest
/// with any other element of the list.
pub open spec fn absorb_keeps_unnested(list: Seq<Region>, rect: Region) -> bool {
    forall|i: int|
        (0 <= i < list.len() && region_interacts(#[trigger] list[i], rect) && (forall|j: int|
            0 <= j < i ==> !region_interacts(#[trigger] list[j], rect))) ==> (region_contains(
            list[i],
            rect,
        ) || (forall|j: int|
            0 <= j < list.len() && j != i ==> !region_contains(
                absorbed_elem(list[i], rect),
                #[trigger] list[j],
            ) && !region_contains(list[j], absorbed_elem(list[i], rect))))
}

proof fn lemma_absorb_prefix(list: Seq<Region>, rect: Region, i: int)
    requires
        0 <= i <= list.len(),
        forall|j: int| 0 <= j < i ==> !region_interacts(#[trigger] list[j], rect),
    ensures
        spec_absorb(list, rect) == list.subrange(0, i) + spec_absorb(
            list.subrange(i, list.len() as int),
            rect,
        ),
    decreases i,
{
    if i == 0 {
        assert(list.subrange(0, list.len() as int) =~= list);
        assert(spec_absorb(list, rect) =~= list.subrange(0, 0) + spec_absorb(
            list.subrange(0, list.len() as int),
            rect,
        ));
    } else {
        lemma_absorb_prefix(list, rect, i - 1);
        let tail = list.subrange(i - 1, list.len() as int);
        assert(tail[0] == list[i - 1]);
        assert(!region_interacts(tail[0], rect));
        assert(tail.subrange(1, tail.len() as int) =~= list.subrange(i, list.len() as int));
        assert(spec_absorb(tail, rect) == seq![tail[0]] + spec_absorb(
            list.subrange(i, list.len() as int),
            rect,
        ));
        assert(list.subrange(0, i - 1) + seq![list[i - 1]] =~= list.subrange(0, i));
        assert(list.subrange(0, i - 1) + spec_absorb(tail, rect) =~= list.subrange(0, i)
            + spec_absorb(list.subrange(i, list.len() as int), rect));
    }
}

/// Absorb `rect` into the dirty list: drop it, replace or grow the first
/// related element, or append it. When the inputs allow it (see
/// `absorb_keeps_unnested`), no element of the new list contains another.
pub fn push_to_dirty_rect_list(list: &mut Vec<Region>, rect: Region)
    ensures
        final(list)@ == spec_absorb(old(list)@, rect),
        (pairwise_unnested(old(list)@) && absorb_keeps_unnested(old(list)@, rect))
            ==> pairwise_unnested(final(list)@),
        (region_wf(rect) && (forall|j: int|
            0 <= j < old(list)@.len() ==> region_wf(#[trigger] old(list)@[j]))) ==> (forall|j: int|
            0 <= j < final(list)@.len() ==> region_wf(#[trigger] final(list)@[j])),
{
    let ghost orig = list@;
    let mut i: usize = 0;
    while i < list.len()
        invariant
            i <= list@.len(),
            orig == old(list)@,
            list@ == orig,
            forall|j: int| 0 <= j < i ==> !region_interacts(#[trigger] orig[j], rect),
        decreases list@.len() - i,
    {
        let dr = list[i];
        if dr.contains(&rect) {
            proof {
                lemma_absorb_prefix(orig, rect, i as int);
                let tail = orig.subrange(i as int, orig.len() as int);
                assert(tail[0] == orig[i as int]);
                assert(spec_absorb(tail, rect) == tail);
                assert(spec_absorb(orig, rect) =~= orig);
            }
            return;
        }
        if rect.contains(&dr) {
            list[i] = rect;
            proof {
                lemma_absorb_prefix(orig, rect, i as int);
                let tail = orig.subrange(i as int, orig.len() as int);
                assert(tail[0] == orig[i as int]);
                assert(spec_absorb(tail, rect) == tail.update(0, rect));
                assert(list@ =~= orig.subrange(0, i as int) + spec_absorb(tail, rect));
                assert(list@ == spec_absorb(orig, rect));
                if pairwise_unnested(orig) && absorb_keeps_unnested(orig, rect) {
                    assert(absorbed_elem(orig[i as int], rect) == rect);
                    assert forall|a: int, b: int|
                        0 <= a < list@.len() && 0 <= b < list@.len() && a != b implies
                        !region_contains(#[trigger] list@[a], #[trigger] list@[b]) by {
                        if a != i as int && b != i as int {
                            assert(!region_contains(orig[a], orig[b]));
                        }
                    }
                }
            }
            return;
        }
        if rect.extends(&dr) {
            let mut grown = dr;
            grown.absorb(&rect);
            list[i] = grown;
            proof {
                lemma_absorb_prefix(orig, rect, i as int);
                let tail = orig.subrange(i as int, orig.len() as int);
                assert(tail[0] == orig[i as int]);
                assert(spec_absorb(tail, rect) == tail.update(0, spec_union(orig[i as int], rect)));
                assert(list@ =~= orig.subrange(0, i as int) + spec_absorb(tail, rect));
                assert(list@ == spec_absorb(orig, rect));
                if pairwise_unnested(orig) && absorb_keeps_unnested(orig, rect) {
                    assert(absorbed_elem(orig[i as int], rect) == spec_union(
                        orig[i as int],
                        rect,
                    ));
                    assert forall|a: int, b: int|
                        0 <= a < list@.len() && 0 <= b < list@.len() && a != b implies
                        !region_contains(#[trigger] list@[a], #[trigger] list@[b]) by {
                        if a != i as int && b != i as int {
                            assert(!region_contains(orig[a], orig[b]));
                        }
                    }
                }
            }
            return;
        }
        i += 1;
    }
    list.push(rect);
    proof {
        lemma_absorb_prefix(orig, rect, orig.len() as int);
        assert(orig.subrange(orig.len() as int, orig.len() as int).len() == 0);
        assert(spec_absorb(orig, rect) =~= orig + seq![rect]);
        assert(list@ =~= spec_absorb(orig, rect));
        if pairwise_unnested(orig) {
            assert forall|a: int, b: int|
                0 <= a < list@.len() && 0 <= b < list@.len() && a != b implies !region_contains(
                #[trigger] list@[a],
                #[trigger] list@[b],
            ) by {
                if a < orig.len() && b < orig.len() {
                    assert(!region_contains(orig[a], orig[b]));
                } else if a == orig.len() as int {
                    assert(!region_interacts(orig[b], rect));
                } else {
                    assert(!region_interacts(orig[a], rect));
                }
            }
        }
    }
}

} // verus!
