//! The frame scheduler: classifies each dirty region's refresh mode, forces
//! a periodic full refresh against ghosting, and sweeps the backlog after an
//! idle spell. The counter of dirtying frames never passes its threshold and
//! resets exactly when a whole-frame draw or a forced full refresh happens.
use crate::dirty::{pairwise_unnested, push_to_dirty_rect_list, region_wf, spec_absorb, Region};
use vstd::prelude::*;

verus! {

/// How many dirtying frames may pass before a full refresh is forced.
pub const MAX_DIRTY_REFRESHES: u32 = 500;

/// The three refresh modes of the panel, ordered by growing latency and
/// shrinking ghosting.
#[derive(Debug, Clone, Copy, PartialEq, Eq, Structural)]
pub enum UpdateMode {
    Full,
    Partial,
    FastMono,
}

/// One refresh the panel should perform.
#[derive(Debug, Clone, Copy, PartialEq, Eq, Structural)]
pub struct PanelUpdate {
    pub rect: Region,
    pub mode: UpdateMode,
}

/// The refresh mode of one dirty region: small regions refresh fast and
/// monochrome, larger ones partially; the session's first draw is full.
pub open spec fn spec_mode_for(r: Region, first: bool) -> UpdateMode {
    if first {
        UpdateMode::Full
    } else if r.max_x - r.min_x < 100 && r.max_y - r.min_y < 100 {
        UpdateMode::FastMono
    } else {
        UpdateMode::Partial
    }
}

pub open spec fn spec_full_updates(l: Seq<Region>) -> Seq<PanelUpdate> {
    Seq::new(l.len(), |i: int| PanelUpdate { rect: l[i], mode: UpdateMode::Full })
}

pub open spec fn spec_mode_updates(l: Seq<Region>, first: bool) -> Seq<PanelUpdate> {
    Seq::new(l.len(), |i: int| PanelUpdate { rect: l[i], mode: spec_mode_for(l[i], first) })
}

/// Absorb every element of `add` into `base`, in order.
pub open spec fn spec_absorb_all(base: Seq<Region>, add: Seq<Region>) -> Seq<Region>
    decreases add.len(),
{
    if add.len() == 0 {
        base
    } else {
        spec_absorb_all(spec_absorb(base, add[0]), add.subrange(1, add.len() as int))
    }
}

proof fn lemma_absorb_all_snoc(base: Seq<Region>, pre: Seq<Region>, x: Region)
    ensures
        spec_absorb_all(base, pre.push(x)) == spec_absorb(spec_absorb_all(base, pre), x),
    decreases pre.len(),
{
    if pre.len() == 0 {
        assert(pre.push(x)[0] == x);
        assert(pre.push(x).subrange(1, 1) =~= Seq::<Region>::empty());
        assert(spec_absorb_all(base, pre.push(x)) == spec_absorb_all(
            spec_absorb(base, x),
            pre.push(x).subrange(1, 1),
        ));
        assert(spec_absorb_all(spec_absorb(base, x), pre.push(x).subrange(1, 1)) == spec_absorb(
            base,
            x,
        ));
        assert(spec_absorb_all(base, pre) == base);
    } else {
        let tail = pre.subrange(1, pre.len() as int);
        assert(pre.push(x)[0] == pre[0]);
        assert(pre.push(x).subrange(1, pre.len() + 1 as int) =~= tail.push(x));
        lemma_absorb_all_snoc(spec_absorb(base, pre[0]), tail, x);
        assert(spec_absorb_all(base, pre.push(x)) == spec_absorb_all(
            spec_absorb(base, pre[0]),
            tail.push(x),
        ));
        assert(spec_absorb_all(base, pre) == spec_absorb_all(spec_absorb(base, pre[0]), tail));
    }
}

/// The dirty-region and refresh state of one session.
pub struct FrameEngine {
    /// Regions dirtied by the frame now being assembled.
    pub dirty_rects: Vec<Region>,
    /// Regions dirtied since the last full refresh.
    pub dirty_rects_since_refresh: Vec<Region>,
    /// Whether anything has been drawn in this session.
    pub has_drawn_once: bool,
    /// How many frames produced work since the last full refresh.
    pub dirty_update_count: u32,
    /// The whole-framebuffer region.
    pub fb_rect: Region,
}

impl FrameEngine {
    /// The counter never passes its threshold, and every region held is
    /// within the panel's first quadrant.
    pub open spec fn wf(&self) -> bool {
        &&& self.dirty_update_count <= MAX_DIRTY_REFRESHES
        &&& forall|i: int|
            0 <= i < self.dirty_rects@.len() ==> region_wf(#[trigger] self.dirty_rects@[i])
        &&& forall|i: int|
            0 <= i < self.dirty_rects_since_refresh@.len() ==> region_wf(
                #[trigger] self.dirty_rects_since_refresh@[i],
            )
    }

    pub fn new(fb_rect: Region) -> (r: FrameEngine)
        ensures
            r.dirty_rects@ == Seq::<Region>::empty(),
            r.dirty_rects_since_refresh@ == Seq::<Region>::empty(),
            !r.has_drawn_once,
            r.dirty_update_count == 0,
            r.fb_rect == fb_rect,
            r.wf(),
    {
        FrameEngine {
            dirty_rects: Vec::new(),
            dirty_rects_since_refresh: Vec::new(),
            has_drawn_once: false,
            dirty_update_count: 0,
            fb_rect,
        }
    }

    /// Pixels landed in `r`. A whole-frame draw clears both dirty lists,
    /// refreshes at once and resets the counter; anything else only joins
    /// the dirty list for the frame in progress.
    pub fn on_put_pixels(&mut self, r: Region) -> (updates: Vec<PanelUpdate>)
        requires
            old(self).wf(),
            region_wf(r),
        ensures
            final(self).wf(),
            final(self).fb_rect == old(self).fb_rect,
            if r == old(self).fb_rect {
                &&& final(self).dirty_rects@ == Seq::<Region>::empty()
                &&& final(self).dirty_rects_since_refresh@ == Seq::<Region>::empty()
                &&& final(self).dirty_update_count == 0
                &&& final(self).has_drawn_once
                &&& updates@ == seq![
                    PanelUpdate {
                        rect: old(self).fb_rect,
                        mode: if !old(self).has_drawn_once {
                            UpdateMode::Full
                        } else {
                            UpdateMode::Partial
                        },
                    },
                ]
            } else {
                &&& final(self).dirty_rects@ == spec_absorb(old(self).dirty_rects@, r)
                &&& final(self).dirty_rects_since_refresh@ == old(
                    self,
                ).dirty_rects_since_refresh@
                &&& final(self).dirty_update_count == old(self).dirty_update_count
                &&& final(self).has_drawn_once == old(self).has_drawn_once
                &&& updates@ == Seq::<PanelUpdate>::empty()
            },
            // the counter resets exactly on a whole-frame draw here
            (final(self).dirty_update_count == 0) == (r == old(self).fb_rect || old(
                self,
            ).dirty_update_count == 0),
            (pairwise_unnested(old(self).dirty_rects@) && crate::dirty::absorb_keeps_unnested(
                old(self).dirty_rects@,
                r,
            )) ==> pairwise_unnested(final(self).dirty_rects@),
    {
        if r == self.fb_rect {
            self.dirty_rects.clear();
            self.dirty_rects_since_refresh.clear();
            let mode = if !self.has_drawn_once {
                UpdateMode::Full
            } else {
                UpdateMode::Partial
            };
            self.dirty_update_count = 0;
            self.has_drawn_once = true;
            let mut updates: Vec<PanelUpdate> = Vec::new();
            updates.push(PanelUpdate { rect: self.fb_rect, mode });
            proof {
                assert(updates@ =~= seq![PanelUpdate { rect: old(self).fb_rect, mode }]);
            }
            updates
        } else {
            push_to_dirty_rect_list(&mut self.dirty_rects, r);
            Vec::new()
        }
    }

    /// A copy landed with destination `dst`: it joins the dirty list.
    pub fn on_copy_pixels(&mut self, dst: Region)
        requires
            old(self).wf(),
            region_wf(dst),
        ensures
            final(self).wf(),
            final(self).fb_rect == old(self).fb_rect,
            final(self).dirty_rects@ == spec_absorb(old(self).dirty_rects@, dst),
            final(self).dirty_rects_since_refresh@ == old(self).dirty_rects_since_refresh@,
            final(self).dirty_update_count == old(self).dirty_update_count,
            final(self).has_drawn_once == old(self).has_drawn_once,
    {
        push_to_dirty_rect_list(&mut self.dirty_rects, dst);
    }

    /// A frame ended. The counter grows only when the frame produced work.
    /// Past the threshold, every region dirtied since the last full refresh
    /// is refreshed in full and the counter resets; otherwise each dirty
    /// region refreshes in its own mode (full on the session's first draw)
    /// and is recorded in the backlog. The dirty list empties either way.
    pub fn on_end_of_frame(&mut self) -> (updates: Vec<PanelUpdate>)
        requires
            old(self).wf(),
        ensures
            final(self).wf(),
            final(self).fb_rect == old(self).fb_rect,
            final(self).dirty_rects@ == Seq::<Region>::empty(),
            final(self).has_drawn_once == (old(self).has_drawn_once || old(
                self,
            ).dirty_rects@.len() > 0),
            ({
                let grown = old(self).dirty_update_count + (if old(self).dirty_rects@.len() > 0 {
                    1int
                } else {
                    0int
                });
                if grown > MAX_DIRTY_REFRESHES {
                    &&& final(self).dirty_update_count == 0
                    &&& final(self).dirty_rects_since_refresh@ == Seq::<Region>::empty()
                    &&& updates@ == spec_full_updates(old(self).dirty_rects_since_refresh@)
                } else {
                    &&& final(self).dirty_update_count == grown
                    &&& final(self).dirty_rects_since_refresh@ == spec_absorb_all(
                        old(self).dirty_rects_since_refresh@,
                        old(self).dirty_rects@,
                    )
                    &&& updates@ == spec_mode_updates(
                        old(self).dirty_rects@,
                        !old(self).has_drawn_once,
                    )
                }
            }),
            // the counter resets exactly when the full refresh was forced
            (final(self).dirty_update_count == 0) == (old(self).dirty_update_count + (if old(
                self,
            ).dirty_rects@.len() > 0 {
                1int
            } else {
                0int
            }) > MAX_DIRTY_REFRESHES || (old(self).dirty_update_count == 0 && old(
                self,
            ).dirty_rects@.len() == 0)),
    {
        let first = !self.has_drawn_once;
        let had_work = self.dirty_rects.len() > 0;
        if !self.has_drawn_once {
            self.has_drawn_once = had_work;
        }
        if had_work {
            self.dirty_update_count = self.dirty_update_count + 1;
        }
        let mut updates: Vec<PanelUpdate> = Vec::new();
        if self.dirty_update_count > MAX_DIRTY_REFRESHES {
            let mut i: usize = 0;
            let n = self.dirty_rects_since_refresh.len();
            while i < n
                invariant
                    i <= n,
                    old(self).wf(),
                    n == self.dirty_rects_since_refresh@.len(),
                    self.dirty_rects_since_refresh@ == old(self).dirty_rects_since_refresh@,
                    self.dirty_rects@ == old(self).dirty_rects@,
                    self.fb_rect == old(self).fb_rect,
                    self.has_drawn_once == (old(self).has_drawn_once || old(
                        self,
                    ).dirty_rects@.len() > 0),
                    updates@ =~= spec_full_updates(
                        old(self).dirty_rects_since_refresh@.subrange(0, i as int),
                    ),
                decreases n - i,
            {
                let dr = self.dirty_rects_since_refresh[i];
                updates.push(PanelUpdate { rect: dr, mode: UpdateMode::Full });
                proof {
                    assert(updates@ =~= spec_full_updates(
                        old(self).dirty_rects_since_refresh@.subrange(0, i + 1 as int),
                    ));
                }
                i += 1;
            }
            proof {
                assert(old(self).dirty_rects_since_refresh@.subrange(
                    0,
                    old(self).dirty_rects_since_refresh@.len() as int,
                ) =~= old(self).dirty_rects_since_refresh@);
            }
            self.dirty_update_count = 0;
            self.dirty_rects_since_refresh.clear();
        } else {
            let mut i: usize = 0;
            let n = self.dirty_rects.len();
            while i < n
                invariant
                    i <= n,
                    old(self).wf(),
                    n == self.dirty_rects@.len(),
                    self.dirty_rects@ == old(self).dirty_rects@,
                    self.fb_rect == old(self).fb_rect,
                    self.dirty_update_count == old(self).dirty_update_count + (if old(
                        self,
                    ).dirty_rects@.len() > 0 {
                        1int
                    } else {
                        0int
                    }),
                    self.dirty_update_count <= MAX_DIRTY_REFRESHES,
                    self.has_drawn_once == (old(self).has_drawn_once || old(
                        self,
                    ).dirty_rects@.len() > 0),
                    first == !old(self).has_drawn_once,
                    forall|j: int|
                        0 <= j < self.dirty_rects_since_refresh@.len() ==> region_wf(
                            #[trigger] self.dirty_rects_since_refresh@[j],
                        ),
                    updates@ =~= spec_mode_updates(
                        old(self).dirty_rects@.subrange(0, i as int),
                        first,
                    ),
                    self.dirty_rects_since_refresh@ == spec_absorb_all(
                        old(self).dirty_rects_since_refresh@,
                        old(self).dirty_rects@.subrange(0, i as int),
                    ),
                decreases n - i,
            {
                let dr = self.dirty_rects[i];
                let small = dr.max_x - dr.min_x < 100 && dr.max_y - dr.min_y < 100;
                let mode = if first {
                    UpdateMode::Full
                } else if small {
                    UpdateMode::FastMono
                } else {
                    UpdateMode::Partial
                };
                updates.push(PanelUpdate { rect: dr, mode });
                push_to_dirty_rect_list(&mut self.dirty_rects_since_refresh, dr);
                proof {
                    assert(updates@ =~= spec_mode_updates(
                        old(self).dirty_rects@.subrange(0, i + 1 as int),
                        first,
                    ));
                    assert(old(self).dirty_rects@.subrange(0, i as int).push(dr)
                        =~= old(self).dirty_rects@.subrange(0, i + 1 as int));
                    lemma_absorb_all_snoc(
                        old(self).dirty_rects_since_refresh@,
                        old(self).dirty_rects@.subrange(0, i as int),
                        dr,
                    );
                }
                i += 1;
            }
            proof {
                assert(old(self).dirty_rects@.subrange(0, old(self).dirty_rects@.len() as int)
                    =~= old(self).dirty_rects@);
            }
        }
        self.dirty_rects.clear();
        updates
    }

    /// The idle sweep: with a backlog pending and more than three seconds
    /// since the last draw, refresh every backlog region in full and reset
    /// the counter.
    pub fn on_idle(&mut self, seconds_since_last_draw: u64) -> (updates: Vec<PanelUpdate>)
        requires
            old(self).wf(),
        ensures
            final(self).wf(),
            final(self).fb_rect == old(self).fb_rect,
            final(self).dirty_rects@ == old(self).dirty_rects@,
            final(self).has_drawn_once == old(self).has_drawn_once,
            if old(self).dirty_rects_since_refresh@.len() > 0 && seconds_since_last_draw > 3 {
                &&& final(self).dirty_update_count == 0
                &&& final(self).dirty_rects_since_refresh@ == Seq::<Region>::empty()
                &&& updates@ == spec_full_updates(old(self).dirty_rects_since_refresh@)
            } else {
                &&& final(self).dirty_update_count == old(self).dirty_update_count
                &&& final(self).dirty_rects_since_refresh@ == old(
                    self,
                ).dirty_rects_since_refresh@
                &&& updates@ == Seq::<PanelUpdate>::empty()
            },
            // the counter resets exactly when the sweep fired
            (final(self).dirty_update_count == 0) == ((old(
                self,
            ).dirty_rects_since_refresh@.len() > 0 && seconds_since_last_draw > 3) || old(
                self,
            ).dirty_update_count == 0),
    {
        if self.dirty_rects_since_refresh.len() > 0 && seconds_since_last_draw > 3 {
            let mut updates: Vec<PanelUpdate> = Vec::new();
            let mut i: usize = 0;
            let n = self.dirty_rects_since_refresh.len();
            while i < n
                invariant
                    i <= n,
                    old(self).wf(),
                    n == self.dirty_rects_since_refresh@.len(),
                    self.dirty_rects_since_refresh@ == old(self).dirty_rects_since_refresh@,
                    self.dirty_rects@ == old(self).dirty_rects@,
                    self.fb_rect == old(self).fb_rect,
                    self.dirty_update_count == old(self).dirty_update_count,
                    self.has_drawn_once == old(self).has_drawn_once,
                    updates@ =~= spec_full_updates(
                        old(self).dirty_rects_since_refresh@.subrange(0, i as int),
                    ),
                decreases n - i,
            {
                let dr = self.dirty_rects_since_refresh[i];
                updates.push(PanelUpdate { rect: dr, mode: UpdateMode::Full });
                proof {
                    assert(updates@ =~= spec_full_updates(
                        old(self).dirty_rects_since_refresh@.subrange(0, i + 1 as int),
                    ));
                }
                i += 1;
            }
            proof {
                assert(old(self).dirty_rects_since_refresh@.subrange(
                    0,
                    old(self).dirty_rects_since_refresh@.len() as int,
                ) =~= old(self).dirty_rects_since_refresh@);
            }
            self.dirty_update_count = 0;
            self.dirty_rects_since_refresh.clear();
            updates
        } else {
            Vec::new()
        }
    }
}

} // verus!
