//! The open closet: the runtime object that tracks which drawers are
//! currently unlocked and mediates opening, creating, closing and
//! saving.
//!
//! The state is a stack.  The bottom closet is the file-level one; each
//! deeper level is the nested closet of an open drawer.  `push_back`
//! returns an open drawer to the closet and enters it, making its
//! nested closet the new deepest level; `close_deepest_drawer` seals
//! the deepest open drawer back into its slot.

use vstd::prelude::*;
use crate::closed_drawer::{
    ct_len_in_min_bucket, is_sealed_with, pass_ok, spec_opened_content, spec_opens, ClosedDrawer,
    SlotV,
};
use crate::content::{ContentV, DrawerContent, DrawerSettings, OpenDrawer, OpenDrawerV};
use crate::error::CoreError;
use crate::ser_closet::{closet_wf, spec_closet, spec_load, ClosetV, SerCloset, MIN_SLOTS};

verus! {

/// A content with its nested closet replaced: what a drawer's content
/// becomes when the closet browsed under it is folded back in.
pub open spec fn content_with_closet(c: ContentV, k: ClosetV) -> ContentV {
    ContentV { entries: c.entries, settings: c.settings, closet: k }
}

/// What a successful close of the deepest drawer yields: the drawer's
/// content — with the browsed closet folded back in — sealed under its
/// retained passphrase and its minimal bucket, and inserted back at
/// its slot in the level below.
pub open spec fn close_ok(
    pre_closets: Seq<ClosetV>,
    pre_opens: Seq<OpenDrawerV>,
    post_top: ClosetV,
) -> bool {
    &&& pre_opens.len() >= 1
    &&& pre_closets.len() >= 2
    &&& {
        let d = pre_opens.last();
        let below = pre_closets[pre_closets.len() - 2];
        let folded = content_with_closet(d.content, pre_closets.last());
        exists|s: SlotV, pad: Seq<u8>|
            {
                &&& post_top.slots == below.slots.insert(d.drawer_idx, s)
                &&& #[trigger] is_sealed_with(s, below.salt, d.password, folded, pad)
                &&& ct_len_in_min_bucket(
                    s.ct.len(),
                    d.bucket as nat,
                    crate::content::spec_content(folded).len(),
                )
            }
    }
}

/// The whole stack folded shut: the deepest drawer sealed into the
/// level below — a `close_ok` step — over and over, until only the
/// file-level closet remains, and that closet is `root`.  This is what
/// a save writes: every open drawer's content, nested closets folded
/// in, re-sealed under its retained passphrase at its own slot.
pub open spec fn stack_closed_to(
    pre_closets: Seq<ClosetV>,
    pre_opens: Seq<OpenDrawerV>,
    root: ClosetV,
) -> bool
    decreases pre_closets.len(),
{
    if pre_closets.len() == 0 {
        false
    } else if pre_closets.len() == 1 {
        pre_opens.len() == 0 && root == pre_closets[0]
    } else {
        pre_opens.len() + 1 == pre_closets.len() && exists|mid: ClosetV|
            #[trigger] close_ok(pre_closets, pre_opens, mid) && stack_closed_to(
                pre_closets.take(pre_closets.len() as int - 2).push(mid),
                pre_opens.drop_last(),
                root,
            )
    }
}

/// A save of a single open drawer keeps its seal: some slot of the
/// saved file-level closet is the drawer's content — the browsed
/// closet folded back in — sealed under the drawer's retained
/// passphrase against the file-level salt.
pub open spec fn saved_keeps_seal(
    pre_closets: Seq<ClosetV>,
    pre_opens: Seq<OpenDrawerV>,
    saved_root: ClosetV,
) -> bool {
    exists|s: SlotV, pad: Seq<u8>|
        {
            &&& #[trigger] is_sealed_with(
                s,
                pre_closets[0].salt,
                pre_opens[0].password,
                content_with_closet(pre_opens[0].content, pre_closets.last()),
                pad,
            )
            &&& exists|i: int|
                0 <= i < saved_root.slots.len() && (#[trigger] saved_root.slots[i]) == s
        }
}

/// The runtime stack of closets and the open drawers linking them.
///
/// `closets[0]` is the file-level closet; for each `i`,
/// `open_drawers[i]` is the drawer of `closets[i]` whose nested closet
/// is browsed as `closets[i + 1]`.  The drawer currently being edited
/// is held by the caller, outside this struct.
pub struct OpenCloset {
    pub closets: Vec<SerCloset>,
    pub open_drawers: Vec<OpenDrawer>,
    pub just_created: bool,
    pub next_open_id: usize,
}

impl OpenCloset {
    /// The ghost images of the closet stack.
    pub open spec fn closet_views(&self) -> Seq<ClosetV> {
        self.closets@.map_values(|c: SerCloset| c@)
    }

    /// The ghost images of the open-drawer stack.
    pub open spec fn open_views(&self) -> Seq<OpenDrawerV> {
        self.open_drawers@.map_values(|d: OpenDrawer| d@)
    }

    /// The stack depth: one for the file-level closet, plus one per
    /// entered drawer.
    pub open spec fn spec_depth(&self) -> nat {
        self.closets@.len()
    }

    /// The deepest closet: where opening and creating happen.
    pub open spec fn top(&self) -> ClosetV {
        self.closets@[self.closets@.len() - 1]@
    }

    /// The session knows a free slot in the deepest closet.
    pub open spec fn top_has_free(&self) -> bool {
        exists|i: int|
            0 <= i < self.closets@[self.closets@.len() - 1].free_flags@.len() && #[trigger] self
                .closets@[self.closets@.len() - 1].free_flags@[i]
    }

    /// Well-formedness: a non-empty stack, one open drawer per level
    /// below the top, every closet and drawer well formed, and every
    /// open drawer's slot index valid for re-insertion into its level.
    pub open spec fn wf(&self) -> bool {
        &&& self.closets@.len() >= 1
        &&& self.open_drawers@.len() + 1 == self.closets@.len()
        &&& forall|i: int| 0 <= i < self.closets@.len() ==> (#[trigger] self.closets@[i]).wf()
        &&& forall|i: int|
            0 <= i < self.open_drawers@.len() ==> (#[trigger] self.open_drawers@[i]).wf()
        &&& forall|i: int|
            0 <= i < self.open_drawers@.len() ==> (#[trigger] self.open_drawers@[i]).drawer_idx
                <= self.closets@[i]@.slots.len()
    }

    /// Wrap a file-level closet in a single-level stack.
    /// `just_created` is true until the first successful save.
    pub fn create(closet: SerCloset, just_created: bool) -> (r: OpenCloset)
        requires
            closet.wf(),
        ensures
            r.wf(),
            r.spec_depth() == 1,
            r.top() == closet@,
            r.just_created == just_created,
    {
        let mut closets: Vec<SerCloset> = Vec::new();
        closets.push(closet);
        OpenCloset { closets, open_drawers: Vec::new(), just_created, next_open_id: 0 }
    }

    /// The stack depth.
    pub fn depth(&self) -> (r: usize)
        ensures
            r == self.spec_depth(),
    {
        self.closets.len()
    }

    /// Whether the closet was created this session and never saved.
    pub fn is_just_created(&self) -> (r: bool)
        ensures
            r == self.just_created,
    {
        self.just_created
    }

    /// Return an edited drawer to the closet and enter it: its nested
    /// closet becomes the deepest level, where drawers can be opened
    /// or created in turn.
    pub fn push_back(&mut self, drawer: OpenDrawer)
        requires
            old(self).wf(),
            drawer.wf(),
            drawer.drawer_idx <= old(self).top().slots.len(),
        ensures
            final(self).wf(),
            final(self).spec_depth() == old(self).spec_depth() + 1,
            final(self).closet_views() == old(self).closet_views().push(drawer.content.closet@),
            final(self).open_views() == old(self).open_views().push(drawer@),
            final(self).just_created == old(self).just_created,
            final(self).next_open_id == old(self).next_open_id,
    {
        let ghost nested_view = drawer.content.closet@;
        let ghost nested_flags = drawer.content.closet.free_flags@;
        proof {
            assert(drawer.content.closet.wf());
            assert(nested_flags.len() == drawer.content.closet.drawers@.len());
            assert(nested_view.slots.len() == drawer.content.closet.drawers@.len());
        }
        let nested = drawer.content.closet.clone();
        self.closets.push(nested);
        self.open_drawers.push(drawer);
        proof {
            assert(self.closet_views() =~= old(self).closet_views().push(
                self.closets@[self.closets@.len() - 1]@,
            ));
            assert(self.open_views() =~= old(self).open_views().push(
                self.open_drawers@[self.open_drawers@.len() - 1]@,
            ));
            assert forall|i: int| 0 <= i < self.closets@.len() implies (#[trigger] self
                .closets@[i]).wf() by {
                if i < self.closets@.len() - 1 {
                    assert(self.closets@[i] == old(self).closets@[i]);
                    assert(old(self).closets@[i].wf());
                } else {
                    assert(self.closets@[i]@ == nested_view);
                    assert(self.closets@[i].free_flags@ == nested_flags);
                    assert(closet_wf(self.closets@[i]@));
                    assert(self.closets@[i].free_flags@.len() == self.closets@[i].drawers@.len());
                }
            }
        }
    }

    /// Take back the deepest open drawer, with its nested closet
    /// folded back into it, leaving the level below as the deepest.
    pub fn take_deepest_open_drawer(&mut self) -> (r: Option<OpenDrawer>)
        requires
            old(self).wf(),
        ensures
            final(self).wf(),
            old(self).spec_depth() == 1 ==> r is None && final(self).closet_views() == old(self).closet_views() && final(self).open_views() == old(self).open_views(),
            old(self).spec_depth() > 1 ==> (r matches Some(od) && {
                &&& final(self).spec_depth() == old(self).spec_depth() - 1
                &&& final(self).closet_views() == old(self).closet_views().drop_last()
                &&& final(self).open_views() == old(self).open_views().drop_last()
                &&& od@ == (OpenDrawerV {
                    content: content_with_closet(
                        old(self).open_views().last().content,
                        old(self).top(),
                    ),
                    ..old(self).open_views().last()
                })
                &&& od.wf()
                &&& od.drawer_idx <= final(self).top().slots.len()
            }),
            final(self).just_created == old(self).just_created,
            final(self).next_open_id == old(self).next_open_id,
    {
        if self.closets.len() == 1 {
            return None;
        }
        let nested = self.closets.pop().unwrap();
        let mut drawer = self.open_drawers.pop().unwrap();
        drawer.content.closet = nested;
        proof {
            assert(self.closet_views() =~= old(self).closet_views().drop_last());
            assert(self.open_views() =~= old(self).open_views().drop_last());
        }
        Some(drawer)
    }

    /// Seal the deepest open drawer — with its nested closet folded
    /// back in — into its slot in the level below, and drop that
    /// level.  Fails with `Internal` at the file level, where there is
    /// no drawer to close.
    #[verifier::rlimit(100)]
    #[verifier::spinoff_prover]
    pub fn close_deepest_drawer(&mut self) -> (r: Result<(), CoreError>)
        requires
            old(self).wf(),
        ensures
            final(self).wf(),
            final(self).just_created == old(self).just_created,
            old(self).spec_depth() == 1 ==> r == Err::<(), CoreError>(CoreError::Internal)
                && final(self).closet_views() == old(self).closet_views() && final(self).open_views() == old(self).open_views(),
            old(self).spec_depth() > 1 ==> final(self).spec_depth() == old(self).spec_depth()
                - 1,
            old(self).spec_depth() > 1 ==> final(self).open_views() == old(self).open_views().drop_last(),
            old(self).spec_depth() > 1 ==> final(self).closet_views().take(
                old(self).spec_depth() - 2 as int,
            ) == old(self).closet_views().take(old(self).spec_depth() - 2 as int),
            old(self).spec_depth() > 1 ==> final(self).top().salt == old(self).closet_views()[old(self).spec_depth() - 2 as int].salt,
            old(self).spec_depth() > 1 && r is Ok ==> close_ok(
                old(self).closet_views(),
                old(self).open_views(),
                final(self).top(),
            ),
            old(self).spec_depth() > 1 && r is Err ==> (r->Err_0 == CoreError::Aead || r->Err_0
                == CoreError::Internal) && final(self).top() == old(self).closet_views()[old(self).spec_depth() - 2 as int],
            old(self).spec_depth() > 1 && pass_ok(old(self).open_views().last().password)
                && crate::content::spec_content(
                content_with_closet(old(self).open_views().last().content, old(self).top()),
            ).len() <= crate::bucket::spec_bucket_size(crate::bucket::MAX_BUCKET_IDX as nat)
                ==> r is Ok,
            old(self).spec_depth() > 1 && r == Err::<(), CoreError>(CoreError::Aead) ==> !pass_ok(
                old(self).open_views().last().password,
            ),
            old(self).spec_depth() > 1 && r == Err::<(), CoreError>(CoreError::Internal)
                ==> crate::content::spec_content(
                content_with_closet(old(self).open_views().last().content, old(self).top()),
            ).len() > crate::bucket::spec_bucket_size(crate::bucket::MAX_BUCKET_IDX as nat),
            old(self).spec_depth() > 1 && r is Ok ==> final(self).closets@[final(self).spec_depth() - 1 as int].free_flags@ == old(self).closets@[old(self).spec_depth() - 2
                as int].free_flags@.insert(
                old(self).open_views().last().drawer_idx as int,
                false,
            ),
    {
        if self.closets.len() == 1 {
            return Err(CoreError::Internal);
        }
        let nested = self.closets.pop().unwrap();
        let mut drawer = self.open_drawers.pop().unwrap();
        drawer.content.closet = nested;
        let mut below = self.closets.pop().unwrap();
        let idx = drawer.drawer_idx;
        let ghost dv = drawer@;
        let ghost below0 = below@;
        let sealed = match ClosedDrawer::from_open_drawer(drawer, &below) {
            Err(e) => {
                self.closets.push(below);
                proof {
                    let d = old(self).open_views().last();
                    let folded = content_with_closet(d.content, old(self).top());
                    assert(dv.content =~= folded);
                    assert(dv.password == d.password);
                    assert(self.open_views() =~= old(self).open_views().drop_last());
                    assert(self.closet_views().take(old(self).spec_depth() - 2 as int)
                        =~= old(self).closet_views().take(old(self).spec_depth() - 2 as int));
                    assert forall|i: int|
                        0 <= i < self.closets@.len() implies (#[trigger] self.closets@[i]).wf() by {
                        assert(self.closets@[i] == old(self).closets@[i]);
                        assert(old(self).closets@[i].wf());
                    }
                    assert forall|i: int|
                        0 <= i < self.open_drawers@.len() implies (#[trigger] self
                        .open_drawers@[i]).wf() && self.open_drawers@[i].drawer_idx
                        <= self.closets@[i]@.slots.len() by {
                        assert(self.open_drawers@[i] == old(self).open_drawers@[i]);
                        assert(self.closets@[i] == old(self).closets@[i]);
                    }
                    assert(self.top() == old(self).closet_views()[old(self).spec_depth() - 2
                        as int]);
                }
                return Err(e);
            },
            Ok(s) => s,
        };
        let ghost spad = choose|pad: Seq<u8>|
            is_sealed_with(sealed@, below@.salt, dv.password, dv.content, pad);
        proof {
            assert(is_sealed_with(sealed@, below0.salt, dv.password, dv.content, spad));
        }
        below.insert_slot(idx, sealed, false);
        let ghost bfv = below@;
        let ghost bff = below.free_flags@;
        proof {
            assert(closet_wf(below@));
            assert(below.free_flags@.len() == below.drawers@.len());
            assert(bff.len() == bfv.slots.len());
        }
        self.closets.push(below);
        proof {
            assert(self.open_views() =~= old(self).open_views().drop_last());
            assert(self.closet_views().take(old(self).spec_depth() - 2 as int) =~= old(self).closet_views().take(old(self).spec_depth() - 2 as int));
            assert forall|i: int|
                0 <= i < self.closets@.len() implies (#[trigger] self.closets@[i]).wf() by {
                if i < self.closets@.len() - 1 {
                    assert(self.closets@[i] == old(self).closets@[i]);
                    assert(old(self).closets@[i].wf());
                } else {
                    assert(self.closets@[i]@ == bfv);
                    assert(self.closets@[i].free_flags@ == bff);
                    assert(closet_wf(self.closets@[i]@));
                    assert(self.closets@[i].free_flags@.len() == self.closets@[i].drawers@.len());
                }
            }
            assert forall|i: int|
                0 <= i < self.open_drawers@.len() implies (#[trigger] self.open_drawers@[i]).wf()
                && self.open_drawers@[i].drawer_idx <= self.closets@[i]@.slots.len() by {
                assert(self.open_drawers@[i] == old(self).open_drawers@[i]);
                if i < self.closets@.len() - 1 {
                    assert(self.closets@[i] == old(self).closets@[i]);
                } else {
                    assert(self.closets@[i]@ == bfv);
                    assert(bfv.slots.len() == below0.slots.len() + 1);
                }
            }
            let pre_closets = old(self).closet_views();
            let pre_opens = old(self).open_views();
            let d = pre_opens.last();
            let below_x = pre_closets[pre_closets.len() - 2];
            let folded = content_with_closet(d.content, pre_closets.last());
            assert(pre_closets.last() == old(self).top());
            assert(below_x == below0);
            assert(dv.content =~= folded);
            assert(is_sealed_with(sealed@, below_x.salt, d.password, folded, spad));
            assert(self.top().slots == below_x.slots.insert(d.drawer_idx, sealed@));
            assert(ct_len_in_min_bucket(
                sealed@.ct.len(),
                d.bucket as nat,
                crate::content::spec_content(folded).len(),
            ));
            assert(close_ok(pre_closets, pre_opens, self.top()));
        }
        Ok(())
    }

    /// Try to open a drawer of the deepest closet with `password`.
    /// Every slot is attempted whether or not an earlier one opened,
    /// so the work done does not depend on the outcome.  On success
    /// the slot is removed from the array and the open drawer is
    /// handed to the caller.
    #[verifier::rlimit(100)]
    pub fn open_take_drawer(&mut self, password: &str) -> (r: Option<OpenDrawer>)
        requires
            old(self).wf(),
        ensures
            final(self).wf(),
            final(self).spec_depth() == old(self).spec_depth(),
            final(self).open_views() == old(self).open_views(),
            final(self).just_created == old(self).just_created,
            final(self).closet_views().take(old(self).spec_depth() - 1 as int) == old(self).closet_views().take(old(self).spec_depth() - 1 as int),
            r is None ==> final(self).closet_views() == old(self).closet_views() && forall|i: int|
                0 <= i < old(self).top().slots.len() ==> !spec_opens(
                    #[trigger] old(self).top().slots[i],
                    old(self).top().salt,
                    password@,
                ),
            r is None ==> forall|i: int, content: ContentV, pad: Seq<u8>|
                0 <= i < old(self).top().slots.len() ==> !(#[trigger] is_sealed_with(
                    old(self).top().slots[i],
                    old(self).top().salt,
                    password@,
                    content,
                    pad,
                )),
            r matches Some(od) ==> {
                &&& 0 <= od.drawer_idx < old(self).top().slots.len()
                &&& spec_opens(
                    old(self).top().slots[od.drawer_idx as int],
                    old(self).top().salt,
                    password@,
                )
                &&& forall|j: int|
                    0 <= j < od.drawer_idx ==> !spec_opens(
                        #[trigger] old(self).top().slots[j],
                        old(self).top().salt,
                        password@,
                    )
                &&& od@.content == spec_opened_content(
                    old(self).top().slots[od.drawer_idx as int],
                    old(self).top().salt,
                    password@,
                )
                &&& final(self).top().slots == old(self).top().slots.remove(od.drawer_idx as int)
                &&& final(self).top().salt == old(self).top().salt
                &&& od.password@ == password@
                &&& od.wf()
                &&& od.drawer_idx <= final(self).top().slots.len()
                &&& od.open_id == old(self).next_open_id
            },
    {
        let mut top = self.closets.pop().unwrap();
        let ghost top0 = top@;
        let ghost topf = top.free_flags@;
        let key = match top.derive_key(password) {
            None => {
                self.closets.push(top);
                proof {
                    assert(self.closet_views() =~= old(self).closet_views());
                    self.lemma_same_closets_wf(old(self));
                }
                return None;
            },
            Some(k) => k,
        };
        let found = top.sweep_with_key(&key);
        match found {
            None => {
                self.closets.push(top);
                proof {
                    assert(self.closet_views() =~= old(self).closet_views());
                    self.lemma_same_closets_wf(old(self));
                }
                None
            },
            Some((fi, content)) => {
                let removed = top.remove_slot(fi);
                let bucket = crate::bucket::bucket_of_ct_len(removed.ciphertext().len());
                let id = self.next_open_id;
                if self.next_open_id < usize::MAX {
                    self.next_open_id = self.next_open_id + 1;
                }
                let od = OpenDrawer {
                    drawer_idx: fi,
                    password: password.to_owned(),
                    open_id: id,
                    bucket,
                    content,
                };
                let ghost tv = top@;
                let ghost tf = top.free_flags@;
                proof {
                    assert(closet_wf(top@));
                    assert(top.free_flags@.len() == top.drawers@.len());
                }
                self.closets.push(top);
                proof {
                    self.lemma_pushed_closets_wf(old(self), tv, tf);
                    assert(self.closet_views().take(old(self).spec_depth() - 1 as int) =~= old(self).closet_views().take(old(self).spec_depth() - 1 as int));
                }
                Some(od)
            },
        }
    }

    /// Create a brand-new drawer in the deepest closet, unlocked by
    /// `password`.  The passphrase is first tried against every
    /// current slot: if any opens, the creation is refused with
    /// `DuplicatePassphrase`.  Otherwise a slot the session knows to
    /// be free is converted — growing the capacity first when none is
    /// known — and the empty drawer is handed to the caller, its slot
    /// removed from the array.
    #[verifier::rlimit(100)]
    pub fn create_take_drawer(&mut self, password: &str) -> (r: Result<OpenDrawer, CoreError>)
        requires
            old(self).wf(),
        ensures
            final(self).wf(),
            final(self).spec_depth() == old(self).spec_depth(),
            final(self).open_views() == old(self).open_views(),
            final(self).just_created == old(self).just_created,
            final(self).closet_views().take(old(self).spec_depth() - 1 as int) == old(self).closet_views().take(old(self).spec_depth() - 1 as int),
            r matches Err(e) ==> final(self).closet_views() == old(self).closet_views() && ((e
                == CoreError::DuplicatePassphrase && exists|i: int|
                0 <= i < old(self).top().slots.len() && spec_opens(
                    #[trigger] old(self).top().slots[i],
                    old(self).top().salt,
                    password@,
                )) || (e == CoreError::Aead && !pass_ok(password@)) || (e == CoreError::Internal
                && old(self).top().slots.len() > crate::ser_closet::MAX_SLOT_COUNT / 2 && (forall|
                    i: int,
                |
                    0 <= i < old(self).top().slots.len() ==> !spec_opens(
                        #[trigger] old(self).top().slots[i],
                        old(self).top().salt,
                        password@,
                    )))),
            r matches Ok(od) ==> {
                &&& forall|i: int|
                    0 <= i < old(self).top().slots.len() ==> !spec_opens(
                        #[trigger] old(self).top().slots[i],
                        old(self).top().salt,
                        password@,
                    )
                &&& od@.content.entries.len() == 0
                &&& od.password@ == password@
                &&& od.wf()
                &&& od.open_id == old(self).next_open_id
                &&& final(self).top().salt == old(self).top().salt
                &&& od.drawer_idx <= final(self).top().slots.len()
                &&& final(self).top().slots.len() + 1 == (if old(self).top_has_free() {
                    old(self).top().slots.len()
                } else {
                    if 2 * old(self).top().slots.len() >= MIN_SLOTS as nat {
                        2 * old(self).top().slots.len()
                    } else {
                        MIN_SLOTS as nat
                    }
                })
            },
    {
        let mut top = self.closets.pop().unwrap();
        let ghost top0 = top@;
        let ghost topf = top.free_flags@;
        let key = match top.derive_key(password) {
            None => {
                self.closets.push(top);
                proof {
                    assert(self.closet_views() =~= old(self).closet_views());
                    self.lemma_same_closets_wf(old(self));
                }
                return Err(CoreError::Aead);
            },
            Some(k) => k,
        };
        match top.sweep_with_key(&key) {
            Some((hit, _)) => {
                proof {
                    assert(top0 == old(self).top());
                    assert(spec_opens(
                        old(self).top().slots[hit as int],
                        old(self).top().salt,
                        password@,
                    ));
                }
                self.closets.push(top);
                proof {
                    assert(self.closet_views() =~= old(self).closet_views());
                    self.lemma_same_closets_wf(old(self));
                }
                return Err(CoreError::DuplicatePassphrase);
            },
            None => {},
        }
        let fi = match top.find_free() {
            Some(i) => i,
            None => {
                match top.grow() {
                    Err(e) => {
                        self.closets.push(top);
                        proof {
                            self.lemma_pushed_closets_wf(old(self), top0, topf);
                            assert(self.closet_views() =~= old(self).closet_views());
                        }
                        return Err(e);
                    },
                    Ok(()) => {},
                }
                match top.find_free() {
                    Some(i) => i,
                    None => {
                        proof {
                            assert(top.free_flags@[top0.slots.len() as int]);
                            assert(false);
                        }
                        self.closets.push(top);
                        return Err(CoreError::Internal);
                    },
                }
            },
        };
        let _removed = top.remove_slot(fi);
        let content = DrawerContent {
            entries: Vec::new(),
            settings: DrawerSettings::default(),
            closet: SerCloset::new_nested(),
        };
        let id = self.next_open_id;
        if self.next_open_id < usize::MAX {
            self.next_open_id = self.next_open_id + 1;
        }
        let od = OpenDrawer {
            drawer_idx: fi,
            password: password.to_owned(),
            open_id: id,
            bucket: 0,
            content,
        };
        let ghost tv = top@;
        let ghost tf = top.free_flags@;
        proof {
            assert(closet_wf(top@));
            assert(top.free_flags@.len() == top.drawers@.len());
            assert(od@.content.entries =~= Seq::<crate::content::EntryV>::empty());
        }
        self.closets.push(top);
        proof {
            self.lemma_pushed_closets_wf(old(self), tv, tf);
            assert(self.closet_views().take(old(self).spec_depth() - 1 as int) =~= old(self).closet_views().take(old(self).spec_depth() - 1 as int));
        }
        Ok(od)
    }

    /// Change the passphrase a drawer will be re-encrypted under.  As
    /// for creation, the new passphrase is first tried against every
    /// slot of the deepest closet: if any opens, the change is refused
    /// with `DuplicatePassphrase`.  The change takes effect on the
    /// next save.
    pub fn change_password(&self, drawer: &mut OpenDrawer, new_password: String) -> (r: Result<
        (),
        CoreError,
    >)
        requires
            self.wf(),
            old(drawer).wf(),
        ensures
            final(drawer).wf(),
            r is Ok ==> final(drawer)@ == (OpenDrawerV {
                password: new_password@,
                ..old(drawer)@
            }) && pass_ok(new_password@) && forall|i: int|
                0 <= i < self.top().slots.len() ==> !spec_opens(
                    #[trigger] self.top().slots[i],
                    self.top().salt,
                    new_password@,
                ),
            r matches Err(e) ==> final(drawer)@ == old(drawer)@ && ((e
                == CoreError::DuplicatePassphrase && exists|i: int|
                0 <= i < self.top().slots.len() && spec_opens(
                    #[trigger] self.top().slots[i],
                    self.top().salt,
                    new_password@,
                )) || (e == CoreError::Aead && !pass_ok(new_password@))),
    {
        let ti = self.closets.len() - 1;
        let top = &self.closets[ti];
        proof {
            assert(top@ == self.top());
        }
        let key = match top.derive_key(new_password.as_str()) {
            None => {
                return Err(CoreError::Aead);
            },
            Some(k) => k,
        };
        match top.sweep_with_key(&key) {
            Some((hit, _)) => {
                proof {
                    assert(spec_opens(self.top().slots[hit as int], self.top().salt,
                        new_password@));
                }
                return Err(CoreError::DuplicatePassphrase);
            },
            None => {},
        }
        drawer.password = new_password;
        Ok(())
    }

    /// Close every open drawer, deepest first, re-sealing each into
    /// its slot; top the capacity up to the minimum and refresh every
    /// slot the session knows to be a decoy; and serialize the
    /// file-level closet.  The caller writes the returned bytes to
    /// disk atomically.
    ///
    /// The slot count never decreases across a save and never falls
    /// under the minimum, and the salt never changes.  With no open
    /// drawer there is nothing that can fail.
    #[verifier::rlimit(100)]
    #[verifier::spinoff_prover]
    pub fn close_and_save(&mut self) -> (r: Result<Vec<u8>, CoreError>)
        requires
            old(self).wf(),
        ensures
            final(self).wf(),
            r matches Ok(bytes) ==> {
                &&& final(self).spec_depth() == 1
                &&& !final(self).just_created
                &&& bytes@ == spec_closet(final(self).closet_views()[0])
                &&& spec_load(bytes@) == Ok::<ClosetV, CoreError>(final(self).closet_views()[0])
                &&& final(self).closet_views()[0].slots.len() >= old(self).closet_views()[0].slots.len()
                &&& final(self).closet_views()[0].slots.len() >= MIN_SLOTS
                &&& final(self).closet_views()[0].salt == old(self).closet_views()[0].salt
                &&& exists|closed: ClosetV|
                    {
                        &&& #[trigger] stack_closed_to(
                            old(self).closet_views(),
                            old(self).open_views(),
                            closed,
                        )
                        &&& closed.salt == final(self).closet_views()[0].salt
                        &&& final(self).closet_views()[0].slots.len() >= closed.slots.len()
                        &&& forall|i: int|
                            0 <= i < final(self).closet_views()[0].slots.len() ==> (i
                                < closed.slots.len()
                                && final(self).closet_views()[0].slots[i] == closed.slots[i])
                                || crate::ser_closet::spec_decoy_shape(
                                #[trigger] final(self).closet_views()[0].slots[i],
                            )
                    }
            },
            r matches Err(e) ==> e == CoreError::Aead || e == CoreError::Internal,
            old(self).spec_depth() == 1 ==> r is Ok,
            r == Err::<Vec<u8>, CoreError>(CoreError::Aead) ==> exists|i: int|
                0 <= i < old(self).open_views().len() && !pass_ok(
                    (#[trigger] old(self).open_views()[i]).password,
                ),
            old(self).spec_depth() == 2 && pass_ok(old(self).open_views()[0].password)
                && crate::content::spec_content(
                content_with_closet(old(self).open_views()[0].content, old(self).top()),
            ).len() <= crate::bucket::spec_bucket_size(crate::bucket::MAX_BUCKET_IDX as nat)
                ==> r is Ok,
            old(self).spec_depth() == 2 && r is Ok ==> saved_keeps_seal(
                old(self).closet_views(),
                old(self).open_views(),
                final(self).closet_views()[0],
            ),
    {
        while self.closets.len() > 1
            invariant
                self.wf(),
                old(self).wf(),
                self.closet_views()[0].salt == old(self).closet_views()[0].salt,
                self.closet_views()[0].slots.len() >= old(self).closet_views()[0].slots.len(),
                self.just_created == old(self).just_created,
                old(self).spec_depth() == 1 ==> self.spec_depth() == 1,
                self.open_views().len() <= old(self).open_views().len(),
                self.open_views() == old(self).open_views().take(self.open_views().len() as int),
                old(self).spec_depth() == 2 && self.spec_depth() == 2 ==> self.closet_views()
                    == old(self).closet_views() && self.open_views() == old(self).open_views(),
                forall|root: ClosetV| #[trigger] stack_closed_to(
                    self.closet_views(),
                    self.open_views(),
                    root,
                ) ==> stack_closed_to(old(self).closet_views(), old(self).open_views(), root),
                old(self).spec_depth() == 2 && self.spec_depth() == 1 ==> exists|
                    s: SlotV,
                    pad: Seq<u8>,
                |
                    {
                        &&& #[trigger] is_sealed_with(
                            s,
                            old(self).closet_views()[0].salt,
                            old(self).open_views()[0].password,
                            content_with_closet(
                                old(self).open_views()[0].content,
                                old(self).top(),
                            ),
                            pad,
                        )
                        &&& exists|i: int|
                            0 <= i < self.closet_views()[0].slots.len()
                                && !self.closets@[0].free_flags@[i] && (#[trigger] self
                                .closet_views()[0].slots[i]) == s
                    },
            decreases self.closets@.len(),
        {
            let ghost pre = self.closet_views();
            let ghost pre_opens = self.open_views();
            match self.close_deepest_drawer() {
                Err(e) => {
                    proof {
                        assert(pre_opens.len() + 1 == pre.len());
                        assert(pre_opens.len() >= 1);
                        let k = pre_opens.len() - 1;
                        assert(pre_opens == old(self).open_views().take(
                            pre_opens.len() as int,
                        ));
                        assert(pre_opens.last() == pre_opens[k as int]);
                        assert(old(self).open_views().take(pre_opens.len() as int)[k as int]
                            == old(self).open_views()[k as int]);
                        assert(pre_opens.last() == old(self).open_views()[k as int]);
                        if old(self).spec_depth() == 2 && pass_ok(
                            old(self).open_views()[0].password,
                        ) && crate::content::spec_content(
                            content_with_closet(
                                old(self).open_views()[0].content,
                                old(self).top(),
                            ),
                        ).len() <= crate::bucket::spec_bucket_size(
                            crate::bucket::MAX_BUCKET_IDX as nat,
                        ) {
                            assert(pre_opens.len() == 1);
                            assert(pre_opens.last() == old(self).open_views()[0]);
                            assert(pre.last() == old(self).top());
                            assert(false);
                        }
                    }
                    return Err(e);
                },
                Ok(()) => {},
            }
            proof {
                if pre.len() > 2 {
                    assert(self.closet_views()[0] == self.closet_views().take(
                        pre.len() - 2 as int,
                    )[0]);
                    assert(pre[0] == pre.take(pre.len() - 2 as int)[0]);
                }
                assert(self.open_views() =~= old(self).open_views().take(
                    self.open_views().len() as int,
                ));
                assert(self.spec_depth() == pre.len() - 1);
                assert(self.closet_views() =~= pre.take(pre.len() as int - 2).push(self.top()));
                assert(self.open_views() =~= pre_opens.drop_last());
                assert forall|root: ClosetV| #[trigger] stack_closed_to(
                    self.closet_views(),
                    self.open_views(),
                    root,
                ) implies stack_closed_to(
                    old(self).closet_views(),
                    old(self).open_views(),
                    root,
                ) by {
                    assert(close_ok(pre, pre_opens, self.top()));
                    assert(stack_closed_to(pre, pre_opens, root));
                }
                if old(self).spec_depth() == 2 && self.spec_depth() == 1 {
                    assert(pre == old(self).closet_views());
                    assert(pre_opens == old(self).open_views());
                    let d = pre_opens.last();
                    let below = pre[0];
                    let folded = content_with_closet(d.content, pre.last());
                    let (s, pad) = choose|s: SlotV, pad: Seq<u8>|
                        {
                            &&& self.top().slots == below.slots.insert(d.drawer_idx, s)
                            &&& #[trigger] is_sealed_with(s, below.salt, d.password, folded, pad)
                            &&& ct_len_in_min_bucket(
                                s.ct.len(),
                                d.bucket as nat,
                                crate::content::spec_content(folded).len(),
                            )
                        };
                    let i = d.drawer_idx as int;
                    assert(self.closet_views()[0].slots[i] == s);
                    assert(!self.closets@[0].free_flags@[i]);
                    assert(0 <= i < self.closet_views()[0].slots.len() && !self
                        .closets@[0].free_flags@[i] && self.closet_views()[0].slots[i] == s);
                    assert(d == old(self).open_views()[0]);
                    assert(below.salt == old(self).closet_views()[0].salt);
                    assert(folded == content_with_closet(
                        old(self).open_views()[0].content,
                        old(self).top(),
                    ));
                }
            }
        }
        let ghost closed_root = self.closet_views()[0];
        let ghost exit_flags = self.closets@[0].free_flags@;
        proof {
            assert(self.open_views().len() == 0);
            assert(stack_closed_to(self.closet_views(), self.open_views(), closed_root));
            assert(stack_closed_to(
                old(self).closet_views(),
                old(self).open_views(),
                closed_root,
            ));
        }
        let mut root = self.closets.pop().unwrap();
        proof {
            assert(root@ == closed_root);
            assert(root.free_flags@ == exit_flags);
        }
        root.ensure_min_slots();
        let ghost mid_slots = root@.slots;
        let ghost mid_flags = root.free_flags@;
        root.refresh_decoys();
        proof {
            assert forall|i: int| 0 <= i < root@.slots.len() implies ((i < closed_root.slots.len()
                && root@.slots[i] == closed_root.slots[i]) || crate::ser_closet::spec_decoy_shape(
                root@.slots[i],
            )) by {
                if mid_flags[i] {
                    assert(crate::ser_closet::spec_decoy_shape(root@.slots[i]));
                } else {
                    assert(root@.slots[i] == mid_slots[i]);
                    if i < closed_root.slots.len() {
                        assert(mid_slots[i] == mid_slots.take(
                            closed_root.slots.len() as int,
                        )[i]);
                        assert(mid_slots[i] == closed_root.slots[i]);
                    } else {
                        assert(crate::ser_closet::spec_decoy_shape(mid_slots[i]));
                    }
                }
            }
            if old(self).spec_depth() == 2 {
                let (s, pad) = choose|s: SlotV, pad: Seq<u8>|
                    {
                        &&& #[trigger] is_sealed_with(
                            s,
                            old(self).closet_views()[0].salt,
                            old(self).open_views()[0].password,
                            content_with_closet(
                                old(self).open_views()[0].content,
                                old(self).top(),
                            ),
                            pad,
                        )
                        &&& exists|i: int|
                            0 <= i < closed_root.slots.len() && !exit_flags[i] && (
                            #[trigger] closed_root.slots[i]) == s
                    };
                let i = choose|i: int|
                    0 <= i < closed_root.slots.len() && !exit_flags[i] && (
                    #[trigger] closed_root.slots[i]) == s;
                assert(mid_flags.take(closed_root.slots.len() as int)[i] == exit_flags[i]);
                assert(!mid_flags[i]);
                assert(mid_slots.take(closed_root.slots.len() as int)[i]
                    == closed_root.slots[i]);
                assert(mid_slots[i] == s);
                assert(root@.slots[i] == s);
                assert(old(self).top() == old(self).closet_views().last());
                assert(is_sealed_with(
                    s,
                    old(self).closet_views()[0].salt,
                    old(self).open_views()[0].password,
                    content_with_closet(
                        old(self).open_views()[0].content,
                        old(self).closet_views().last(),
                    ),
                    pad,
                ));
                assert(0 <= i < root@.slots.len() && root@.slots[i] == s);
                assert(saved_keeps_seal(old(self).closet_views(), old(self).open_views(), root@));
            }
        }
        let bytes = root.save_bytes();
        proof {
            crate::ser_closet::lemma_load_of_save(root@);
        }
        let ghost rv = root@;
        let ghost rf = root.free_flags@;
        proof {
            assert(closet_wf(root@));
            assert(root.free_flags@.len() == root.drawers@.len());
        }
        self.closets.push(root);
        self.just_created = false;
        proof {
            assert(self.closets@.len() == 1);
            assert(self.closet_views() =~= seq![rv]);
            assert forall|i: int| 0 <= i < self.closets@.len() implies (#[trigger] self
                .closets@[i]).wf() by {
                assert(self.closets@[i]@ == rv);
                assert(self.closets@[i].free_flags@ == rf);
                assert(self.closets@[i].free_flags@.len() == self.closets@[i].drawers@.len());
            }
        }
        Ok(bytes)
    }

    /// After popping and re-pushing the top closet unchanged, the
    /// whole stack is unchanged, so well-formedness carries over.
    proof fn lemma_same_closets_wf(&self, pre: &OpenCloset)
        requires
            pre.wf(),
            self.closets@.len() == pre.closets@.len(),
            forall|i: int|
                0 <= i < self.closets@.len() ==> self.closets@[i] == pre.closets@[i],
            self.open_drawers@ == pre.open_drawers@,
        ensures
            self.wf(),
            self.closet_views() == pre.closet_views(),
    {
        assert(self.closet_views() =~= pre.closet_views());
        assert forall|i: int| 0 <= i < self.closets@.len() implies (#[trigger] self
            .closets@[i]).wf() by {
            assert(pre.closets@[i].wf());
        }
        assert forall|i: int|
            0 <= i < self.open_drawers@.len() implies (#[trigger] self.open_drawers@[i]).wf()
            && self.open_drawers@[i].drawer_idx <= self.closets@[i]@.slots.len() by {
            assert(pre.open_drawers@[i].wf());
            assert(self.closets@[i] == pre.closets@[i]);
        }
    }

    /// After replacing the top closet with a well-formed one of the
    /// same salt, the stack is well formed again.
    proof fn lemma_pushed_closets_wf(&self, pre: &OpenCloset, tv: ClosetV, tf: Seq<bool>)
        requires
            pre.wf(),
            self.closets@.len() == pre.closets@.len(),
            forall|i: int|
                0 <= i < self.closets@.len() - 1 ==> self.closets@[i] == pre.closets@[i],
            self.open_drawers@ == pre.open_drawers@,
            self.closets@[self.closets@.len() - 1]@ == tv,
            self.closets@[self.closets@.len() - 1].free_flags@ == tf,
            closet_wf(tv),
            tf.len() == tv.slots.len(),
        ensures
            self.wf(),
    {
        assert forall|i: int| 0 <= i < self.closets@.len() implies (#[trigger] self
            .closets@[i]).wf() by {
            if i < self.closets@.len() - 1 {
                assert(pre.closets@[i].wf());
            } else {
                assert(self.closets@[i]@ == tv);
                assert(self.closets@[i].free_flags@ == tf);
                assert(self.closets@[i].free_flags@.len() == self.closets@[i].drawers@.len());
            }
        }
        assert forall|i: int|
            0 <= i < self.open_drawers@.len() implies (#[trigger] self.open_drawers@[i]).wf()
            && self.open_drawers@[i].drawer_idx <= self.closets@[i]@.slots.len() by {
            assert(pre.open_drawers@[i].wf());
            assert(self.closets@[i] == pre.closets@[i]);
        }
    }
}

} // verus!
