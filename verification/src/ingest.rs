//! Reassembly of raw records into logical events.
//!
//! Kernel probes cannot carry a full path in one record, so a path arrives
//! as a stream of continuation records, one component each, leaf-first,
//! tagged with a group id. A terminal record (create, rename, link,
//! delete) completes the group and yields one logical event. An
//! association record marks that the components which follow belong to the
//! partner path of a rename or link. A change of group id discards
//! whatever the prior group had accumulated.
//!
//! The state machine is given twice: as a specification (`fr_step`) over
//! mathematical state, and as executable code (`PartialPaths`) proved to
//! follow it record by record.

use std::collections::VecDeque;
use vstd::prelude::*;

use crate::event::EffectType;
use crate::event::Event;
use crate::event::EventModel;
use crate::event::PathType;
use crate::record::decode;
use crate::record::decodes;
use crate::record::spec_decode;
use crate::record::RawEvent;
use crate::record::RecordModel;

verus! {

/// Whether a group is still accumulating components or a terminal record
/// has completed it.
#[derive(Clone, Copy, Debug, PartialEq, Eq, Structural)]
pub enum Continuation {
    Pending,
    Complete,
}

/// The path a sequence of components stands for: each component prefixed
/// with a separator, root-most first. Empty input gives the empty
/// sequence; a completed event wraps that case via `rendered_path`.
pub open spec fn path_of(segs: Seq<Seq<char>>) -> Seq<char>
    decreases segs.len(),
{
    if segs.len() == 0 {
        Seq::empty()
    } else {
        seq!['/'] + segs[0] + path_of(segs.drop_first())
    }
}

/// The path name a completed event carries: always non-empty and absolute,
/// the bare root when no component accumulated.
pub open spec fn rendered_path(segs: Seq<Seq<char>>) -> Seq<char> {
    if segs.len() == 0 {
        seq!['/']
    } else {
        path_of(segs)
    }
}

/// A rendered path is non-empty and begins with the separator.
pub proof fn lemma_rendered_path_absolute(segs: Seq<Seq<char>>)
    ensures
        rendered_path(segs).len() > 0,
        rendered_path(segs)[0] == '/',
{
}

/// A component as it may stand in a path: non-empty, not ending with the
/// separator.
pub open spec fn component_shaped(c: Seq<char>) -> bool {
    c.len() > 0 && c.last() != '/'
}

/// Every component a state holds is shaped. Non-emptiness the machine
/// keeps on its own, since empty components are dropped; whether a
/// component ends with a separator is up to the producer.
pub open spec fn state_components_shaped(s: FrState) -> bool {
    &&& forall|i: int| 0 <= i < s.segments.len() ==> component_shaped(#[trigger] s.segments[i])
    &&& (match s.assoc {
        Some(a) => forall|i: int| 0 <= i < a.len() ==> component_shaped(#[trigger] a[i]),
        None => true,
    })
}

/// A record whose component, if it has a non-empty one, does not end with
/// the separator.
pub open spec fn record_component_clean(r: RecordModel) -> bool {
    r.component() matches Some(c) ==> (c.len() == 0 || c.last() != '/')
}

/// A joined path ends as its leaf component does.
proof fn lemma_path_of_last(segs: Seq<Seq<char>>)
    requires
        segs.len() > 0,
        segs.last().len() > 0,
    ensures
        path_of(segs).len() > 1,
        path_of(segs).last() == segs.last().last(),
    decreases segs.len(),
{
    if segs.len() == 1 {
        assert(segs.drop_first() =~= Seq::<Seq<char>>::empty());
        assert(path_of(segs) == seq!['/'] + segs[0] + path_of(segs.drop_first()));
        assert(segs[0] == segs.last());
        assert(path_of(segs).last() == segs.last().last());
    } else {
        assert(segs.drop_first().last() == segs.last());
        lemma_path_of_last(segs.drop_first());
        assert(path_of(segs) == seq!['/'] + segs[0] + path_of(segs.drop_first()));
        assert(path_of(segs).last() == path_of(segs.drop_first()).last());
    }
}

proof fn lemma_path_of_snoc(segs: Seq<Seq<char>>, x: Seq<char>)
    ensures
        path_of(segs.push(x)) == path_of(segs) + seq!['/'] + x,
    decreases segs.len(),
{
    if segs.len() == 0 {
        assert(segs.push(x).drop_first() =~= Seq::<Seq<char>>::empty());
        assert(segs.push(x)[0] == x);
        assert(path_of(segs.push(x)) == seq!['/'] + x + path_of(segs.push(x).drop_first()));
        assert(path_of(segs.push(x)) =~= path_of(segs) + seq!['/'] + x);
    } else {
        assert(segs.push(x).drop_first() =~= segs.drop_first().push(x));
        lemma_path_of_snoc(segs.drop_first(), x);
        assert(segs.push(x)[0] == segs[0]);
        assert(path_of(segs.push(x)) == seq!['/'] + segs[0] + path_of(segs.drop_first().push(x)));
        assert(path_of(segs.push(x)) =~= path_of(segs) + seq!['/'] + x);
    }
}

/// An ordered accumulator of path components, root-most at the front.
/// Components arrive leaf-first and are pushed at the front, so deque
/// order reads as the path does.
pub struct PathAcc {
    pub items: VecDeque<String>,
}

impl View for PathAcc {
    type V = Seq<Seq<char>>;

    open spec fn view(&self) -> Seq<Seq<char>> {
        Seq::new(self.items@.len(), |i: int| self.items@[i]@)
    }
}

impl PathAcc {
    pub fn new() -> (r: PathAcc)
        ensures
            r@ == Seq::<Seq<char>>::empty(),
    {
        let r = PathAcc { items: VecDeque::new() };
        proof {
            assert(r@ =~= Seq::<Seq<char>>::empty());
        }
        r
    }

    /// Puts a newly arrived component in front of the ones already held.
    pub fn push_component(&mut self, s: String)
        ensures
            final(self)@ == seq![s@] + old(self)@,
    {
        self.items.push_front(s);
        proof {
            assert(final(self)@ =~= seq![s@] + old(self)@);
        }
    }

    pub fn clear(&mut self)
        ensures
            final(self)@ == Seq::<Seq<char>>::empty(),
    {
        self.items.clear();
        proof {
            assert(final(self)@ =~= Seq::<Seq<char>>::empty());
        }
    }

    /// Joins the held components, a separator before each, front first.
    pub fn concat_items_to_path_name(&self) -> (r: String)
        ensures
            r@ == path_of(self@),
    {
        let mut r = String::new();
        let n = self.items.len();
        let mut i: usize = 0;
        while i < n
            invariant
                n == self.items@.len(),
                i <= n,
                r@ == path_of(self@.subrange(0, i as int)),
            decreases n - i,
        {
            r.append("/");
            r.append(self.items[i].as_str());
            proof {
                reveal_strlit("/");
                assert("/"@ =~= seq!['/']);
                assert(self@.subrange(0, i + 1) =~= self@.subrange(0, i as int).push(
                    self@[i as int],
                ));
                lemma_path_of_snoc(self@.subrange(0, i as int), self@[i as int]);
            }
            i = i + 1;
        }
        proof {
            assert(self@.subrange(0, n as int) =~= self@);
        }
        r
    }

    /// The path name the held components stand for: the joined components,
    /// or the bare root when none accumulated.
    pub fn to_path_name(&self) -> (r: String)
        ensures
            r@ == rendered_path(self@),
    {
        if self.items.len() == 0 {
            let r = String::new().concat("/");
            proof {
                reveal_strlit("/");
                assert(r@ =~= seq!['/']);
            }
            r
        } else {
            self.concat_items_to_path_name()
        }
    }
}

/// The mathematical state of the reassembler.
#[verifier::ext_equal]
pub struct FrState {
    pub segments: Seq<Seq<char>>,
    pub assoc: Option<Seq<Seq<char>>>,
    pub event_group_id: u16,
    pub pending: bool,
}

/// The state a fresh reassembler starts in.
pub open spec fn fr_init() -> FrState {
    FrState { segments: Seq::empty(), assoc: None, event_group_id: 0, pending: true }
}

/// A record whose group differs from the current one discards all partial
/// accumulation and adopts the new group.
pub open spec fn fr_reset(s: FrState, gid: u16) -> FrState {
    if gid != s.event_group_id {
        FrState { segments: Seq::empty(), assoc: None, event_group_id: gid, pending: s.pending }
    } else {
        s
    }
}

pub open spec fn assoc_rendered(a: Option<Seq<Seq<char>>>) -> Option<Seq<char>> {
    match a {
        Some(segs) => Some(rendered_path(segs)),
        None => None,
    }
}

/// One transition of the reassembler: group reset first, then the record's
/// effect decides. A continuation pushes its component in front of the
/// path under construction (the partner path once an association record
/// was seen); a component whose bytes are not UTF-8, or that is empty and
/// would only leave a stray separator in the path, is dropped. An
/// association opens the partner path. A terminal effect completes the
/// group and emits the event; the accumulators are left for the next group
/// change to clear.
pub open spec fn fr_step(s: FrState, r: RecordModel) -> (FrState, Option<EventModel>) {
    let s1 = fr_reset(s, r.event_group_id);
    match EffectType::spec_from_code(r.effect_type) {
        Some(EffectType::Continuation) => {
            let s2 = match r.component() {
                Some(c) => if c.len() == 0 {
                    FrState {
                        segments: s1.segments,
                        assoc: s1.assoc,
                        event_group_id: s1.event_group_id,
                        pending: true,
                    }
                } else {
                    match s1.assoc {
                        Some(a) => FrState {
                            segments: s1.segments,
                            assoc: Some(seq![c] + a),
                            event_group_id: s1.event_group_id,
                            pending: true,
                        },
                        None => FrState {
                            segments: seq![c] + s1.segments,
                            assoc: None,
                            event_group_id: s1.event_group_id,
                            pending: true,
                        },
                    }
                },
                None => FrState {
                    segments: s1.segments,
                    assoc: s1.assoc,
                    event_group_id: s1.event_group_id,
                    pending: true,
                },
            };
            (s2, None)
        },
        Some(EffectType::Association) => (
            FrState {
                segments: s1.segments,
                assoc: Some(Seq::empty()),
                event_group_id: s1.event_group_id,
                pending: true,
            },
            None,
        ),
        Some(et) => (
            FrState {
                segments: s1.segments,
                assoc: s1.assoc,
                event_group_id: s1.event_group_id,
                pending: false,
            },
            Some(
                EventModel {
                    path_name: rendered_path(s1.segments),
                    associated: assoc_rendered(s1.assoc),
                    timestamp: r.timestamp,
                    pid: r.pid,
                    path_type: PathType::spec_from_code(r.path_type).spec_exposed(),
                    effect_type: et,
                },
            ),
        ),
        None => (s1, None),
    }
}

/// The reassembler run over a whole sequence of records: the final state
/// and every event emitted along the way, in order.
pub open spec fn fr_run(s: FrState, rs: Seq<RecordModel>) -> (FrState, Seq<EventModel>)
    decreases rs.len(),
{
    if rs.len() == 0 {
        (s, Seq::empty())
    } else {
        let (s1, e) = fr_step(s, rs[0]);
        let (s2, es) = fr_run(s1, rs.drop_first());
        (
            s2,
            (match e {
                Some(ev) => seq![ev],
                None => Seq::<EventModel>::empty(),
            }) + es,
        )
    }
}

/// A continuation record of the given group whose component decodes and
/// contributes to the path: empty components are dropped.
pub open spec fn is_cont_record(r: RecordModel, gid: u16) -> bool {
    &&& r.event_group_id == gid
    &&& r.effect_type == 4
    &&& (r.component() matches Some(c) && c.len() > 0)
}

/// The components a sequence of continuation records carries, in arrival
/// order.
pub open spec fn components_of(rs: Seq<RecordModel>) -> Seq<Seq<char>> {
    Seq::new(rs.len(), |i: int| rs[i].component()->Some_0)
}

/// Whatever the state and the record, an emitted event is well formed: a
/// terminal effect, no reassembly marker as its path type, and an
/// absolute, non-empty path name.
pub proof fn lemma_step_emits_wf(s: FrState, r: RecordModel)
    ensures
        fr_step(s, r).1 matches Some(e) ==> e.wf(),
{
    lemma_rendered_path_absolute(fr_reset(s, r.event_group_id).segments);
}

/// A step keeps every held component shaped, as long as the record's own
/// component does not end with the separator.
pub proof fn lemma_step_keeps_components_shaped(s: FrState, r: RecordModel)
    requires
        state_components_shaped(s),
        record_component_clean(r),
    ensures
        state_components_shaped(fr_step(s, r).0),
{
    let s1 = fr_reset(s, r.event_group_id);
    assert(state_components_shaped(s1));
    match EffectType::spec_from_code(r.effect_type) {
        Some(EffectType::Continuation) => {
            match r.component() {
                Some(c) => {
                    if c.len() > 0 {
                        match s1.assoc {
                            Some(a) => {
                                assert forall|i: int|
                                    0 <= i < (seq![c] + a).len() implies component_shaped(
                                    #[trigger] (seq![c] + a)[i],
                                ) by {
                                    if i > 0 {
                                        assert((seq![c] + a)[i] == a[i - 1]);
                                    }
                                }
                            },
                            None => {
                                assert forall|i: int|
                                    0 <= i < (seq![c] + s1.segments).len() implies component_shaped(
                                    #[trigger] (seq![c] + s1.segments)[i],
                                ) by {
                                    if i > 0 {
                                        assert((seq![c] + s1.segments)[i] == s1.segments[i - 1]);
                                    }
                                }
                            },
                        }
                    }
                },
                None => {},
            }
        },
        _ => {},
    }
}

/// From a state whose components are shaped, an emitted event's paths
/// have no trailing separator; the bare root, a single separator, stands
/// aside.
pub proof fn lemma_step_path_shape(s: FrState, r: RecordModel)
    requires
        state_components_shaped(s),
    ensures
        fr_step(s, r).1 matches Some(e) ==> {
            &&& (e.path_name.len() > 1 ==> e.path_name.last() != '/')
            &&& (match e.associated {
                Some(a) => a.len() > 1 ==> a.last() != '/',
                None => true,
            })
        },
{
    let s1 = fr_reset(s, r.event_group_id);
    assert(state_components_shaped(s1));
    if s1.segments.len() > 0 {
        assert(component_shaped(s1.segments[s1.segments.len() - 1]));
        lemma_path_of_last(s1.segments);
    }
    match s1.assoc {
        Some(a) => {
            if a.len() > 0 {
                assert(component_shaped(a[a.len() - 1]));
                lemma_path_of_last(a);
            }
        },
        None => {},
    }
}

/// Over a whole run of records whose components do not end with the
/// separator, no emitted path has a trailing separator, the bare root
/// aside.
pub proof fn lemma_run_paths_no_trailing(s: FrState, rs: Seq<RecordModel>)
    requires
        state_components_shaped(s),
        forall|i: int| 0 <= i < rs.len() ==> record_component_clean(#[trigger] rs[i]),
    ensures
        forall|i: int|
            0 <= i < fr_run(s, rs).1.len() ==> {
                let e = #[trigger] fr_run(s, rs).1[i];
                &&& (e.path_name.len() > 1 ==> e.path_name.last() != '/')
                &&& (match e.associated {
                    Some(a) => a.len() > 1 ==> a.last() != '/',
                    None => true,
                })
            },
    decreases rs.len(),
{
    if rs.len() > 0 {
        let (s1, e) = fr_step(s, rs[0]);
        lemma_step_path_shape(s, rs[0]);
        lemma_step_keeps_components_shaped(s, rs[0]);
        assert forall|j: int|
            0 <= j < rs.drop_first().len() implies record_component_clean(
            #[trigger] rs.drop_first()[j],
        ) by {
            assert(rs.drop_first()[j] == rs[j + 1]);
        }
        lemma_run_paths_no_trailing(s1, rs.drop_first());
        assert forall|i: int| 0 <= i < fr_run(s, rs).1.len() implies {
            let ev = #[trigger] fr_run(s, rs).1[i];
            &&& (ev.path_name.len() > 1 ==> ev.path_name.last() != '/')
            &&& (match ev.associated {
                Some(a) => a.len() > 1 ==> a.last() != '/',
                None => true,
            })
        } by {
            let head: Seq<EventModel> = match e {
                Some(ev) => seq![ev],
                None => Seq::<EventModel>::empty(),
            };
            if i >= head.len() {
                assert(fr_run(s, rs).1[i] == fr_run(s1, rs.drop_first()).1[i - head.len()]);
            }
        }
    }
}

/// Every event a run emits is well formed, whatever the records were.
pub proof fn lemma_run_emits_wf(s: FrState, rs: Seq<RecordModel>)
    ensures
        forall|i: int| 0 <= i < fr_run(s, rs).1.len() ==> (#[trigger] fr_run(s, rs).1[i]).wf(),
    decreases rs.len(),
{
    if rs.len() > 0 {
        let (s1, e) = fr_step(s, rs[0]);
        lemma_step_emits_wf(s, rs[0]);
        lemma_run_emits_wf(s1, rs.drop_first());
        assert forall|i: int| 0 <= i < fr_run(s, rs).1.len() implies (#[trigger] fr_run(
            s,
            rs,
        ).1[i]).wf() by {
            let head: Seq<EventModel> = match e {
                Some(ev) => seq![ev],
                None => Seq::<EventModel>::empty(),
            };
            if i >= head.len() {
                assert(fr_run(s, rs).1[i] == fr_run(s1, rs.drop_first()).1[i - head.len()]);
            }
        }
    }
}

/// A record of another group makes the prior accumulation irrelevant: the
/// step behaves as it would from any other state of another group. Only
/// the latest group contributes to the next emission.
pub proof fn lemma_group_change_discards(s1: FrState, s2: FrState, r: RecordModel)
    requires
        r.effect_type <= 5,
        r.event_group_id != s1.event_group_id,
        r.event_group_id != s2.event_group_id,
    ensures
        fr_step(s1, r).0 == fr_step(s2, r).0,
        fr_step(s1, r).1 == fr_step(s2, r).1,
{
    assert(fr_step(s1, r).0 =~~= fr_step(s2, r).0);
}

/// Running two stretches of records one after the other is one run of
/// their concatenation.
pub proof fn lemma_run_append(s: FrState, rs1: Seq<RecordModel>, rs2: Seq<RecordModel>)
    ensures
        fr_run(s, rs1 + rs2).0 == fr_run(fr_run(s, rs1).0, rs2).0,
        fr_run(s, rs1 + rs2).1 == fr_run(s, rs1).1 + fr_run(fr_run(s, rs1).0, rs2).1,
    decreases rs1.len(),
{
    if rs1.len() == 0 {
        assert(rs1 + rs2 =~= rs2);
        assert(fr_run(s, rs1).1 + fr_run(fr_run(s, rs1).0, rs2).1 =~= fr_run(s, rs2).1);
    } else {
        assert((rs1 + rs2)[0] == rs1[0]);
        assert((rs1 + rs2).len() != 0);
        assert((rs1 + rs2).drop_first() =~= rs1.drop_first() + rs2);
        let (sa, _e) = fr_step(s, rs1[0]);
        lemma_run_append(sa, rs1.drop_first(), rs2);
        assert(fr_run(s, rs1 + rs2).1 =~= fr_run(s, rs1).1 + fr_run(fr_run(s, rs1).0, rs2).1);
    }
}

/// A run over a single record is one step.
proof fn lemma_run_singleton(s: FrState, r: RecordModel)
    ensures
        fr_run(s, seq![r]).0 == fr_step(s, r).0,
        fr_run(s, seq![r]).1 == (match fr_step(s, r).1 {
            Some(ev) => seq![ev],
            None => Seq::<EventModel>::empty(),
        }),
{
    let rs = seq![r];
    assert(rs.len() == 1);
    assert(rs[0] == r);
    assert(rs.drop_first() =~= Seq::<RecordModel>::empty());
    let (s1, e) = fr_step(s, rs[0]);
    assert(fr_run(s1, rs.drop_first()) == (s1, Seq::<EventModel>::empty()));
    match e {
        Some(ev) => {
            assert(fr_run(s, rs).1 =~= seq![ev]);
        },
        None => {
            assert(fr_run(s, rs).1 =~= Seq::<EventModel>::empty());
        },
    }
}

/// Continuation records of the current group emit nothing and stack their
/// components, newest in front, onto whichever path is open: the partner
/// path when an association was seen, the main path otherwise.
proof fn lemma_run_continuations(s: FrState, rs: Seq<RecordModel>, gid: u16)
    requires
        s.event_group_id == gid,
        forall|i: int| 0 <= i < rs.len() ==> is_cont_record(#[trigger] rs[i], gid),
    ensures
        fr_run(s, rs).1 == Seq::<EventModel>::empty(),
        fr_run(s, rs).0.event_group_id == gid,
        (match s.assoc {
            Some(a) => fr_run(s, rs).0.assoc == Some(components_of(rs).reverse() + a) && fr_run(
                s,
                rs,
            ).0.segments == s.segments,
            None => fr_run(s, rs).0.segments == components_of(rs).reverse() + s.segments && fr_run(
                s,
                rs,
            ).0.assoc is None,
        }),
    decreases rs.len(),
{
    if rs.len() == 0 {
        assert(components_of(rs).reverse() =~= Seq::<Seq<char>>::empty());
        match s.assoc {
            Some(a) => {
                assert(Seq::<Seq<char>>::empty() + a =~= a);
            },
            None => {
                assert(Seq::<Seq<char>>::empty() + s.segments =~= s.segments);
            },
        }
    } else {
        let r0 = rs[0];
        assert(is_cont_record(r0, gid));
        let c0 = r0.component()->Some_0;
        let (sa, e0) = fr_step(s, r0);
        assert(e0 is None);
        lemma_run_continuations(sa, rs.drop_first(), gid);
        assert(components_of(rs.drop_first()) =~= components_of(rs).drop_first());
        assert(components_of(rs).drop_first().reverse() + seq![c0] =~= components_of(
            rs,
        ).reverse());
        assert(fr_run(s, rs).1 =~= Seq::<EventModel>::empty());
        match s.assoc {
            Some(a) => {
                assert(sa.assoc == Some(seq![c0] + a));
                assert(components_of(rs).drop_first().reverse() + (seq![c0] + a) =~= (components_of(
                    rs,
                ).drop_first().reverse() + seq![c0]) + a);
                assert(fr_run(s, rs).0.assoc == Some(components_of(rs).reverse() + a));
            },
            None => {
                assert(sa.segments == seq![c0] + s.segments);
                assert(components_of(rs).drop_first().reverse() + (seq![c0] + s.segments) =~= (
                components_of(rs).drop_first().reverse() + seq![c0]) + s.segments);
                assert(fr_run(s, rs).0.segments == components_of(rs).reverse() + s.segments);
            },
        }
    }
}

/// One group, components then a terminal record, run from a fresh
/// reassembler: exactly one event comes out, and its path name joins the
/// arrived components in reverse arrival order behind a leading
/// separator.
pub proof fn lemma_single_group_path(conts: Seq<RecordModel>, term: RecordModel, gid: u16)
    requires
        forall|i: int| 0 <= i < conts.len() ==> is_cont_record(#[trigger] conts[i], gid),
        term.event_group_id == gid,
        term.effect_type <= 3,
    ensures
        fr_run(fr_init(), conts.push(term)).1.len() == 1,
        fr_run(fr_init(), conts.push(term)).1[0].path_name == rendered_path(
            components_of(conts).reverse(),
        ),
        fr_run(fr_init(), conts.push(term)).1[0].associated is None,
        fr_run(fr_init(), conts.push(term)).1[0].timestamp == term.timestamp,
        fr_run(fr_init(), conts.push(term)).1[0].pid == term.pid,
{
    let fresh = FrState {
        segments: Seq::<Seq<char>>::empty(),
        assoc: None,
        event_group_id: gid,
        pending: true,
    };
    if conts.len() == 0 {
        assert(conts.push(term) =~= seq![term]);
        lemma_run_singleton(fr_init(), term);
        assert(fr_reset(fr_init(), gid).segments =~= Seq::<Seq<char>>::empty());
        assert(components_of(conts).reverse() =~= Seq::<Seq<char>>::empty());
    } else {
        let r0 = conts[0];
        assert(is_cont_record(r0, gid));
        let c0 = r0.component()->Some_0;
        assert(conts.push(term) =~= seq![r0] + conts.drop_first().push(term));
        assert((seq![r0] + conts.drop_first().push(term))[0] == r0);
        assert((seq![r0] + conts.drop_first().push(term)).drop_first() =~= conts.drop_first().push(
            term,
        ));
        let (sa, e0) = fr_step(fr_init(), r0);
        assert(fr_reset(fr_init(), gid) =~~= fresh);
        assert(e0 is None);
        assert(sa.segments =~= seq![c0] + Seq::<Seq<char>>::empty());
        assert(sa =~~= FrState {
            segments: seq![c0],
            assoc: None,
            event_group_id: gid,
            pending: true,
        });
        assert(conts.drop_first().push(term) =~= conts.drop_first() + seq![term]);
        lemma_run_append(sa, conts.drop_first(), seq![term]);
        lemma_run_continuations(sa, conts.drop_first(), gid);
        let sb = fr_run(sa, conts.drop_first()).0;
        assert(sb.segments == components_of(conts.drop_first()).reverse() + seq![c0]);
        assert(components_of(conts.drop_first()) =~= components_of(conts).drop_first());
        assert(components_of(conts).drop_first().reverse() + seq![c0] =~= components_of(
            conts,
        ).reverse());
        let (sc, et) = fr_step(sb, term);
        assert(et matches Some(e) && e.path_name == rendered_path(components_of(conts).reverse()));
        lemma_run_singleton(sb, term);
        assert(fr_run(sb, seq![term]).1 =~= seq![et->Some_0]);
        assert(fr_run(sa, conts.drop_first() + seq![term]).1 =~= seq![et->Some_0]);
        assert(fr_run(fr_init(), conts.push(term)).1 =~= seq![et->Some_0]);
    }
}

/// An association record first, then components, then a terminal record,
/// in one group from a fresh reassembler: nothing is emitted before the
/// terminal record, and the one event then emitted carries the joined
/// components, in reverse arrival order, as its partner path.
pub proof fn lemma_association_group(
    assoc_rec: RecordModel,
    conts: Seq<RecordModel>,
    term: RecordModel,
    gid: u16,
)
    requires
        assoc_rec.event_group_id == gid,
        assoc_rec.effect_type == 5,
        forall|i: int| 0 <= i < conts.len() ==> is_cont_record(#[trigger] conts[i], gid),
        term.event_group_id == gid,
        term.effect_type <= 3,
    ensures
        fr_run(fr_init(), seq![assoc_rec] + conts).1 == Seq::<EventModel>::empty(),
        fr_run(fr_init(), seq![assoc_rec] + conts + seq![term]).1.len() == 1,
        fr_run(fr_init(), seq![assoc_rec] + conts + seq![term]).1[0].associated == Some(
            rendered_path(components_of(conts).reverse()),
        ),
{
    let (sa, e0) = fr_step(fr_init(), assoc_rec);
    assert(seq![assoc_rec].drop_first() =~= Seq::<RecordModel>::empty());
    assert((seq![assoc_rec] + conts)[0] == assoc_rec);
    assert((seq![assoc_rec] + conts).drop_first() =~= conts);
    assert(e0 is None);
    assert(sa.assoc == Some(Seq::<Seq<char>>::empty()));
    assert(sa.event_group_id == gid);
    lemma_run_continuations(sa, conts, gid);
    let sb = fr_run(sa, conts).0;
    assert(sb.assoc == Some(components_of(conts).reverse() + Seq::<Seq<char>>::empty()));
    assert(components_of(conts).reverse() + Seq::<Seq<char>>::empty() =~= components_of(
        conts,
    ).reverse());
    assert(fr_run(fr_init(), seq![assoc_rec] + conts).1 =~= Seq::<EventModel>::empty());
    lemma_run_append(fr_init(), seq![assoc_rec] + conts, seq![term]);
    assert(fr_run(fr_init(), seq![assoc_rec] + conts).0 == sb);
    let (sc, et) = fr_step(sb, term);
    assert(et matches Some(e) && e.associated == Some(
        rendered_path(components_of(conts).reverse()),
    ));
    lemma_run_singleton(sb, term);
    assert(fr_run(sb, seq![term]).1 =~= seq![et->Some_0]);
    assert(fr_run(fr_init(), seq![assoc_rec] + conts + seq![term]).1 =~= seq![et->Some_0]);
}

/// The reassembler's working state: the path under construction, the
/// partner path once an association record arrived, the group the
/// components belong to, and whether the group is still accumulating.
pub struct PartialPaths {
    pub segments: PathAcc,
    pub assoc: Option<PathAcc>,
    pub event_group_id: u16,
    pub state: Continuation,
}

impl View for PartialPaths {
    type V = FrState;

    open spec fn view(&self) -> FrState {
        FrState {
            segments: self.segments@,
            assoc: match self.assoc {
                Some(a) => Some(a@),
                None => None,
            },
            event_group_id: self.event_group_id,
            pending: match self.state {
                Continuation::Pending => true,
                Continuation::Complete => false,
            },
        }
    }
}

impl PartialPaths {
    pub fn new() -> (r: PartialPaths)
        ensures
            r@ == fr_init(),
    {
        let r = PartialPaths {
            segments: PathAcc::new(),
            assoc: None,
            event_group_id: 0,
            state: Continuation::Pending,
        };
        proof {
            assert(r@ =~~= fr_init());
        }
        r
    }

    /// Feeds one record to the state machine; returns the completed event
    /// when the record was terminal.
    pub fn continue_with(&mut self, event: &RawEvent) -> (r: Option<Event>)
        requires
            event@.wf(),
        ensures
            final(self)@ == fr_step(old(self)@, event@).0,
            (match r {
                Some(e) => fr_step(old(self)@, event@).1 == Some(e@),
                None => fr_step(old(self)@, event@).1 is None,
            }),
            r matches Some(e) ==> e@.wf(),
            state_components_shaped(old(self)@) ==> (match r {
                Some(e) => {
                    &&& (e@.path_name.len() > 1 ==> e@.path_name.last() != '/')
                    &&& (match e@.associated {
                        Some(a) => a.len() > 1 ==> a.last() != '/',
                        None => true,
                    })
                },
                None => true,
            }),
    {
        if event.event_group_id != self.event_group_id {
            self.segments.clear();
            self.assoc = None;
            self.event_group_id = event.event_group_id;
        }
        let ghost s1 = fr_reset(old(self)@, event@.event_group_id);
        proof {
            assert(self@ =~~= s1);
        }
        match EffectType::from_code(event.effect_type) {
            Some(EffectType::Continuation) => {
                match event.buf_to_string() {
                    Some(s) => {
                        if s.as_str().unicode_len() > 0 {
                            match &mut self.assoc {
                                Some(a) => a.push_component(s),
                                None => self.segments.push_component(s),
                            }
                        }
                    },
                    None => {},
                }
                self.state = Continuation::Pending;
                proof {
                    assert(self@ =~~= fr_step(old(self)@, event@).0);
                }
                None
            },
            Some(EffectType::Association) => {
                self.assoc = Some(PathAcc::new());
                self.state = Continuation::Pending;
                proof {
                    assert(self@ =~~= fr_step(old(self)@, event@).0);
                }
                None
            },
            Some(et) => {
                self.state = Continuation::Complete;
                let path_name = self.segments.to_path_name();
                let associated = match &self.assoc {
                    Some(a) => Some(a.to_path_name()),
                    None => None,
                };
                let ev = Event {
                    path_name,
                    associated,
                    timestamp: event.timestamp,
                    pid: event.pid,
                    path_type: PathType::from_code(event.path_type).exposed(),
                    effect_type: et,
                };
                proof {
                    assert(self@ =~~= fr_step(old(self)@, event@).0);
                    assert(ev@ =~~= fr_step(old(self)@, event@).1->Some_0);
                    lemma_rendered_path_absolute(s1.segments);
                    if state_components_shaped(old(self)@) {
                        lemma_step_path_shape(old(self)@, event@);
                    }
                }
                Some(ev)
            },
            None => {
                proof {
                    assert(false);
                }
                None
            },
        }
    }
}

/// What one record does in the one-record wire layout, where a record's
/// buffer carries the whole path and `name_offsets` marks the component
/// boundaries: an association record parks its path as the partner of the
/// event to come; any other record emits, carrying the parked partner
/// along.
pub open spec fn array_step(pending: Option<Seq<char>>, r: RecordModel) -> (
    Option<Seq<char>>,
    Option<EventModel>,
) {
    if r.effect_type == 5 {
        (Some(crate::record::spec_array_path(r)), None)
    } else {
        (
            None,
            Some(
                EventModel {
                    path_name: if crate::record::spec_array_path(r).len() == 0 {
                        seq!['/']
                    } else {
                        crate::record::spec_array_path(r)
                    },
                    associated: pending,
                    timestamp: r.timestamp,
                    pid: r.pid,
                    path_type: PathType::spec_from_code(r.path_type).spec_exposed(),
                    effect_type: EffectType::spec_from_code(r.effect_type)->Some_0,
                },
            ),
        )
    }
}

/// Reassembly for the one-record wire layout. Only the partner path of a
/// rename or link spans two records there, so the whole state is the
/// parked partner path, if any.
pub struct ArrayPartialPaths {
    pub pending_assoc: Option<String>,
}

impl View for ArrayPartialPaths {
    type V = Option<Seq<char>>;

    open spec fn view(&self) -> Option<Seq<char>> {
        match self.pending_assoc {
            Some(a) => Some(a@),
            None => None,
        }
    }
}

impl ArrayPartialPaths {
    pub fn new() -> (r: ArrayPartialPaths)
        ensures
            r@ is None,
    {
        ArrayPartialPaths { pending_assoc: None }
    }

    /// Feeds one record; continuation records do not occur in this
    /// layout.
    pub fn continue_with(&mut self, event: &RawEvent) -> (r: Option<Event>)
        requires
            event@.wf(),
            event@.effect_type != 4,
        ensures
            final(self)@ == array_step(old(self)@, event@).0,
            (match r {
                Some(e) => array_step(old(self)@, event@).1 == Some(e@),
                None => array_step(old(self)@, event@).1 is None,
            }),
            r matches Some(e) ==> e@.wf(),
    {
        if event.effect_type == 5 {
            self.pending_assoc = Some(event.reordered_buf_to_string());
            None
        } else {
            let name = event.reordered_buf_to_string();
            let path_name = if name.as_str().unicode_len() == 0 {
                let root = String::new().concat("/");
                proof {
                    reveal_strlit("/");
                    assert(root@ =~= seq!['/']);
                }
                root
            } else {
                name
            };
            let associated = self.pending_assoc.take();
            let effect_type = match EffectType::from_code(event.effect_type) {
                Some(et) => et,
                None => {
                    proof {
                        assert(false);
                    }
                    EffectType::Create
                },
            };
            let ev = Event {
                path_name,
                associated,
                timestamp: event.timestamp,
                pid: event.pid,
                path_type: PathType::from_code(event.path_type).exposed(),
                effect_type,
            };
            proof {
                assert(ev@ =~~= array_step(old(self)@, event@).1->Some_0);
                crate::record::lemma_concat_components_absolute(
                    event@.buf,
                    crate::record::spec_reordered_offsets(event@.name_offsets, event@.buf_len),
                );
            }
            Some(ev)
        }
    }
}

/// The reassembler together with the event queue it feeds: records go in
/// on the kernel channel's callback, completed events come out of the
/// queue in arrival order.
pub struct IngestCore {
    pub paths: PartialPaths,
    pub queue: VecDeque<Event>,
}

impl IngestCore {
    /// The completed events waiting to be polled, oldest first.
    pub open spec fn queued(self) -> Seq<EventModel> {
        Seq::new(self.queue@.len(), |i: int| self.queue@[i]@)
    }

    /// Every queued event is well formed.
    pub open spec fn wf(self) -> bool {
        forall|i: int| 0 <= i < self.queued().len() ==> (#[trigger] self.queued()[i]).wf()
    }

    pub fn new() -> (r: IngestCore)
        ensures
            r.paths@ == fr_init(),
            r.queued() == Seq::<EventModel>::empty(),
            r.wf(),
    {
        let r = IngestCore { paths: PartialPaths::new(), queue: VecDeque::new() };
        proof {
            assert(r.queued() =~= Seq::<EventModel>::empty());
        }
        r
    }

    /// Accepts one wire block from the kernel channel. A block that does
    /// not decode is dropped and delivery continues: per-record faults
    /// recover locally. A decoded record advances the reassembler, and a
    /// completed event joins the queue. The status goes back to the
    /// channel, where nonzero would stop delivery; that code is reserved
    /// for a consumer that has gone away, which cannot happen to this
    /// in-process queue, so the status is always zero.
    pub fn on_record_bytes(&mut self, data: &[u8]) -> (status: i32)
        ensures
            status == 0,
            !decodes(data@) ==> *final(self) == *old(self),
            decodes(data@) ==> {
                &&& final(self).paths@ == fr_step(old(self).paths@, spec_decode(data@)).0
                &&& final(self).queued() == old(self).queued() + (match fr_step(
                    old(self).paths@,
                    spec_decode(data@),
                ).1 {
                    Some(e) => seq![e],
                    None => Seq::<EventModel>::empty(),
                })
            },
            old(self).wf() ==> final(self).wf(),
    {
        let event = match decode(data) {
            Ok(ev) => ev,
            Err(_) => {
                return 0;
            },
        };
        match self.paths.continue_with(&event) {
            Some(complete_event) => {
                self.queue.push_back(complete_event);
                proof {
                    assert(self.queued() =~= old(self).queued() + seq![
                        fr_step(old(self).paths@, spec_decode(data@)).1->Some_0,
                    ]);
                }
            },
            None => {
                proof {
                    assert(self.queued() =~= old(self).queued());
                }
            },
        }
        0
    }

    /// Hands out the oldest completed event, if any: the queue is a FIFO,
    /// so events leave in the order the kernel channel delivered their
    /// terminal records.
    pub fn take_event(&mut self) -> (r: Option<Event>)
        ensures
            (match r {
                Some(e) => {
                    &&& old(self).queued().len() > 0
                    &&& e@ == old(self).queued()[0]
                    &&& final(self).queued() == old(self).queued().drop_first()
                },
                None => {
                    &&& old(self).queued().len() == 0
                    &&& final(self).queued() == old(self).queued()
                },
            }),
            final(self).paths@ == old(self).paths@,
            old(self).wf() ==> final(self).wf(),
            old(self).wf() ==> (r matches Some(e) ==> e@.wf()),
    {
        let r = self.queue.pop_front();
        proof {
            if old(self).queue@.len() > 0 {
                assert(old(self).queued()[0] == old(self).queue@[0]@);
                assert(old(self).wf() ==> old(self).queued()[0].wf());
                assert(self.queued() =~= old(self).queued().drop_first());
            }
        }
        r
    }
}

} // verus!
