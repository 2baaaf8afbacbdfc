//! Sets up a run: gives each participant its id, its channels and its
//! units, and the history its ends of the channels.

use super::channel::{open_channel, share_sender};
use super::components::picker::Strategy;
use super::components::strategies::simple_order::SimpleOrderStrat;
use super::entities::causal_graph::empty_graph;
use super::entities::history::{
    entry_ids, entry_names, lemma_entry_ids, HistoryContext, HistoryParticipant, RessurectMsg,
};
use super::entities::party::{
    DissapearContext, HistTagContext, Participant, PartyChPool, PartyCommCtx, RessurectContext,
    RollbackContext,
};
use super::types::MemoryPiece;
use crate::rollpi::reductions::{lemma_closed_flatten, lemma_well_formed_closed};
use crate::rollpi::syntax::{
    all_chn_names_state, merge_names, state_chan_names, validate_initial_conf, verdict, views,
    ConfError, PrimeState, ProcTag, ProcTagView, Process, TagKey, TaggedPrimProcView,
    TaggedProcView,
};
use crate::text::{decimal, lemma_decimal_injective, push_decimal};
use vstd::prelude::*;
use vstd::string::StringExecFns;

verus! {

/// One participant of a run that is being set up.
struct Seat {
    id: String,
    strategy: Box<dyn Strategy>,
    state: PrimeState,
}

impl Seat {
    fn new(id: String, strategy: Box<dyn Strategy>, state: PrimeState) -> (r: Self)
        ensures
            r.id == id,
            r.state == state,
    {
        Seat { id, strategy, state }
    }
}

/// The participants of a run that is being set up: for each its id, its
/// strategy and its units.
pub struct Generator {
    seats: Vec<Seat>,
}

/// The `k`-th id that is given to a participant that brings none of its
/// own.
pub open spec fn default_id(k: nat) -> Seq<char> {
    seq!['p', '_'] + decimal(k)
}

/// What a participant asks for as its id.
pub open spec fn wish_of(id: Option<String>) -> Option<Seq<char>> {
    match id {
        Some(x) => Some(x@),
        None => None,
    }
}

/// Whether `got` is the id of a participant that joins those with the ids
/// `ids` and asks for `wish`, and `given` says whether it got what it asked
/// for: it does where it asks for an id that is not in use; else it gets
/// the first default id that is not in use.
pub open spec fn assigned(
    ids: Seq<Seq<char>>,
    wish: Option<Seq<char>>,
    got: Seq<char>,
    given: bool,
) -> bool {
    &&& given == (wish matches Some(x) && !ids.contains(x))
    &&& given ==> got == wish->0
    &&& !given ==> exists|k: nat| first_free(ids, k) && got == default_id(k)
}

/// Whether `k` is the number of the first default id that `ids` does not
/// hold.
pub open spec fn first_free(ids: Seq<Seq<char>>, k: nat) -> bool {
    &&& k >= 1
    &&& !ids.contains(default_id(k))
    &&& forall|j: nat| 1 <= j < k ==> ids.contains(#[trigger] default_id(j))
}

/// The names of all channels that occur in the first `n` of `states`.
pub open spec fn all_chan_names(states: Seq<Seq<TaggedPrimProcView>>, n: int) -> Set<Seq<char>>
    decreases n,
{
    if n <= 0 {
        Set::empty()
    } else {
        all_chan_names(states, n - 1).union(
            state_chan_names(states[n - 1], states[n - 1].len() as int),
        )
    }
}

/// Two default ids are the same only where their numbers are.
pub proof fn lemma_default_id_injective(a: nat, b: nat)
    requires
        default_id(a) == default_id(b),
    ensures
        a == b,
{
    assert(decimal(a) =~= default_id(a).subrange(2, default_id(a).len() as int));
    assert(decimal(b) =~= default_id(b).subrange(2, default_id(b).len() as int));
    lemma_decimal_injective(a, b);
}

/// Where `ids` holds the first `n` default ids, it holds at least `n` ids.
proof fn lemma_defaults_bounded(ids: Seq<Seq<char>>, n: nat)
    requires
        forall|j: nat| 1 <= j <= n ==> ids.contains(#[trigger] default_id(j)),
    ensures
        n <= ids.len(),
{
    let vals = Seq::new(n, |j: int| default_id((j + 1) as nat));
    assert forall|a: int, b: int| 0 <= a < vals.len() && 0 <= b < vals.len() && a != b implies vals[a]
        != vals[b] by {
        if vals[a] == vals[b] {
            lemma_default_id_injective((a + 1) as nat, (b + 1) as nat);
        }
    }
    vals.unique_seq_to_set();
    assert forall|x: Seq<char>| vals.to_set().contains(x) implies ids.to_set().contains(x) by {
        let j = choose|j: int| 0 <= j < vals.len() && vals[j] == x;
        assert(ids.contains(default_id((j + 1) as nat)));
    }
    vstd::seq_lib::seq_to_set_is_finite(ids);
    vstd::set_lib::lemma_len_subset(vals.to_set(), ids.to_set());
    ids.lemma_cardinality_of_set();
}

fn make_default_id(k: usize) -> (r: String)
    ensures
        r@ == default_id(k as nat),
{
    proof {
        reveal_strlit("p_");
    }
    let mut s = String::from_str("p_");
    push_decimal(&mut s, k);
    assert(s@ =~= default_id(k as nat));
    s
}

fn seats_contain(seats: &Vec<Seat>, id: &String) -> (b: bool)
    ensures
        b == seat_ids(seats@).contains(id@),
{
    let mut i: usize = 0;
    while i < seats.len()
        invariant
            i <= seats.len(),
            forall|j: int| 0 <= j < i ==> seat_ids(seats@)[j] != id@,
        decreases seats.len() - i,
    {
        if seats[i].id == *id {
            assert(seat_ids(seats@)[i as int] == id@);
            return true;
        }
        i += 1;
    }
    false
}

/// The ids of `seats`, in order.
spec fn seat_ids(seats: Seq<Seat>) -> Seq<Seq<char>> {
    Seq::new(seats.len(), |i: int| seats[i].id@)
}

impl Generator {
    /// The invariant of the generator: no id twice.
    pub closed spec fn wf(&self) -> bool {
        seat_ids(self.seats@).no_duplicates()
    }

    /// The ids of the participants, in the order in which they came.
    pub closed spec fn ids(&self) -> Seq<Seq<char>> {
        seat_ids(self.seats@)
    }

    /// The units of the participants, in the order in which they came.
    pub closed spec fn states(&self) -> Seq<Seq<TaggedPrimProcView>> {
        Seq::new(self.seats@.len(), |i: int| views(self.seats@[i].state@))
    }

    /// A generator without participants.
    pub fn new() -> (r: Self)
        ensures
            r.wf(),
            r.ids() == Seq::<Seq<char>>::empty(),
            r.states() == Seq::<Seq<TaggedPrimProcView>>::empty(),
    {
        let r = Generator { seats: Vec::new() };
        assert(r.ids() =~= Seq::<Seq<char>>::empty());
        assert(r.states() =~= Seq::<Seq<TaggedPrimProcView>>::empty());
        r
    }

    /// Whether the generator can take one more participant.
    pub fn can_take(&self) -> (b: bool)
        ensures
            b == (self.ids().len() < usize::MAX),
    {
        self.seats.len() < usize::MAX
    }

    fn create_participant(&mut self, id: String, proc: PrimeState, strat: Option<Box<dyn Strategy>>)
        requires
            old(self).wf(),
            !old(self).ids().contains(id@),
        ensures
            final(self).wf(),
            final(self).ids() == old(self).ids().push(id@),
            final(self).states() == old(self).states().push(views(proc@)),
    {
        let strategy: Box<dyn Strategy> = match strat {
            Some(s) => s,
            None => Box::new(SimpleOrderStrat::default()),
        };
        let ghost ids0 = seat_ids(self.seats@);
        self.seats.push(Seat::new(id, strategy, proc));
        proof {
            let ids1 = seat_ids(self.seats@);
            assert(ids1 =~= ids0.push(id@));
            assert forall|a: int, b: int|
                0 <= a < ids1.len() && 0 <= b < ids1.len() && a != b implies ids1[a] != ids1[b] by {
                if a < ids0.len() && b < ids0.len() {
                    assert(ids0[a] == ids1[a]);
                    assert(ids0[b] == ids1[b]);
                } else if a < ids0.len() {
                    assert(ids0[a] == ids1[a]);
                    assert(ids0.contains(ids0[a]));
                } else {
                    assert(ids0[b] == ids1[b]);
                    assert(ids0.contains(ids0[b]));
                }
            }
            assert(self.states() =~= old(self).states().push(views(proc@)));
        }
    }
    /// The id for one more participant that asks for `id`: `id` itself where
    /// that is given and not in use, and the first default id that is not in
    /// use else; with it, whether it is the id asked for.
    fn assign_id(&self, id: Option<String>) -> (r: (String, bool))
        requires
            self.wf(),
            self.ids().len() < usize::MAX,
        ensures
            assigned(self.ids(), wish_of(id), r.0@, r.1),
            !self.ids().contains(r.0@),
    {
        let ghost wish = wish_of(id);
        if let Some(id) = id {
            if !seats_contain(&self.seats, &id) {
                return (id, true);
            }
        }
        let mut i: usize = 1;
        let ghost ids0 = seat_ids(self.seats@);
        loop
            invariant
                self.wf(),
                wish == wish_of(id),
                wish matches Some(x) ==> ids0.contains(x),
                ids0 == seat_ids(self.seats@),
                ids0.len() < usize::MAX,
                1 <= i <= ids0.len() + 1,
                forall|j: nat| 1 <= j < i ==> ids0.contains(#[trigger] default_id(j)),
            decreases ids0.len() + 1 - i,
        {
            let new_id = make_default_id(i);
            if !seats_contain(&self.seats, &new_id) {
                assert(first_free(ids0, i as nat));
                return (new_id, false);
            }
            proof {
                lemma_defaults_bounded(ids0, i as nat);
            }
            i += 1;
        }
    }

    /// Takes one more participant with the units `proc`. It gets the id
    /// `id` where that is given and not in use, and the first default id that
    /// is not in use else; the result says whether it got the id given. It
    /// will run `strategy`, or the strategy that goes by the fixed order where
    /// none is given; of this the contract says nothing, as no clause on a
    /// value behind `Box<dyn Strategy>` could be proved.
    pub fn take_participant_conf(
        &mut self,
        proc: PrimeState,
        id: Option<String>,
        strategy: Option<Box<dyn Strategy>>,
    ) -> (given: bool)
        requires
            old(self).wf(),
            old(self).ids().len() < usize::MAX,
        ensures
            final(self).wf(),
            final(self).states() == old(self).states().push(views(proc@)),
            given == (id matches Some(x) && !old(self).ids().contains(x@)),
            given ==> final(self).ids() == old(self).ids().push(id->0@),
            !given ==> exists|k: nat|
                first_free(old(self).ids(), k) && final(self).ids() == old(self).ids().push(
                    default_id(k),
                ),
    {
        let (got, given) = self.assign_id(id);
        self.create_participant(got, proc, strategy);
        given
    }

    /// Takes one more participant that starts as the process `proc`. The
    /// process is refused, and nothing changes, unless it is accepted as an
    /// initial configuration; the error names the first check that it fails.
    /// Else the participant gets its id as `take_participant_conf` gives it,
    /// and its units are the top-level parallel components of `proc`, each
    /// tagged as a fragment of the key that is the id. Of the strategy the
    /// contract says nothing, as in `take_participant_conf`.
    pub fn take_process(
        &mut self,
        proc: Process,
        id: Option<String>,
        strategy: Option<Box<dyn Strategy>>,
    ) -> (r: Result<bool, ConfError>)
        requires
            old(self).wf(),
            old(self).ids().len() < usize::MAX,
        ensures
            final(self).wf(),
            match r {
                Err(e) => verdict(proc@) == Err::<(), ConfError>(e) && final(self).ids() == old(
                    self,
                ).ids() && final(self).states() == old(self).states(),
                Ok(given) => proc@.well_formed() && exists|got: Seq<char>|
                    assigned(old(self).ids(), wish_of(id), got, given) && final(self).ids() == old(
                        self,
                    ).ids().push(got) && final(self).states() == old(self).states().push(
                        (TaggedProcView { tag: ProcTagView::Key(got), proc: proc@ }).prime_state(),
                    ),
            },
    {
        match validate_initial_conf(&proc) {
            Err(e) => {
                return Err(e);
            },
            Ok(_) => {},
        }
        let (got, given) = self.assign_id(id);
        let ghost term = proc@;
        let tagged = proc.to_tagged_process(ProcTag::PTKey(TagKey(got.clone())));
        proof {
            lemma_well_formed_closed(term);
            lemma_closed_flatten(term);
        }
        let state = tagged.to_prime_state();
        let ghost g = got@;
        self.create_participant(got, state, strategy);
        assert(assigned(old(self).ids(), wish_of(id), g, given));
        Ok(given)
    }

    /// Sets up the run: one mailbox for each channel name that occurs in the
    /// units of any participant, shared by all; for each participant its own
    /// channels to and from the history; and the one channel on which all
    /// report what has disappeared. The participants come in the order in
    /// which they were taken, each with its id and its units and with nothing
    /// dead or condemned; the history has nothing on record. Each
    /// participant gets the strategy that it was taken with; of this the
    /// contract says nothing, as in `take_participant_conf`, and neither of
    /// which ends of a channel belong together.
    pub fn generate_participants(self) -> (r: (Vec<Participant>, HistoryParticipant))
        requires
            self.wf(),
        ensures
            self.ids().no_duplicates(),
            r.0.len() == self.ids().len(),
            forall|i: int|
                0 <= i < r.0.len() ==> {
                    let p = #[trigger] r.0[i];
                    &&& p.wf()
                    &&& p.context().id() == self.ids()[i]
                    &&& p.context().tags().prefix() == self.ids()[i]
                    &&& p.context().tags().count() == 0
                    &&& p.state().live == self.states()[i]
                    &&& p.state().dead == Seq::<TaggedPrimProcView>::empty()
                    &&& p.state().frozen == Set::<ProcTagView>::empty()
                    &&& p.context().comm().channel_pool.names().no_duplicates()
                    &&& p.context().comm().channel_pool.names().to_set() == all_chan_names(
                        self.states(),
                        self.states().len() as int,
                    )
                },
            r.1.wf(),
            r.1.graph() == empty_graph(),
            entry_ids(r.1.context().hist_tag_recv@) == self.ids().to_set(),
            entry_ids(r.1.context().hist_not_send@) == self.ids().to_set(),
            entry_ids(r.1.context().roll_tag_recv@) == self.ids().to_set(),
            entry_ids(r.1.context().roll_frz_send@) == self.ids().to_set(),
            entry_ids(r.1.context().ress_tag_send@) == self.ids().to_set(),
            entry_names(r.1.context().hist_tag_recv@) == self.ids(),
            entry_names(r.1.context().hist_not_send@) == self.ids(),
            entry_names(r.1.context().roll_tag_recv@) == self.ids(),
            entry_names(r.1.context().roll_frz_send@) == self.ids(),
            entry_names(r.1.context().ress_tag_send@) == self.ids(),
    {
        let ghost ids0 = self.ids();
        let ghost states0 = self.states();
        let Generator { seats } = self;
        let mut seats = seats;
        let ghost seats0 = seats@;
        let mut names: Vec<String> = Vec::new();
        assert(views(names@).to_set() =~= Set::<Seq<char>>::empty());
        let mut i: usize = 0;
        while i < seats.len()
            invariant
                i <= seats.len(),
                seats@ == seats0,
                states0 == Seq::new(seats0.len(), |k: int| views(seats0[k].state@)),
                views(names@).no_duplicates(),
                views(names@).to_set() == all_chan_names(states0, i as int),
            decreases seats.len() - i,
        {
            let ns = all_chn_names_state(&seats[i].state);
            assert(states0[i as int] == views(seats[i as int].state@));
            merge_names(&mut names, &ns);
            i += 1;
        }
        let ghost all_names = views(names@);
        let part_ch_pool = PartyChPool::new(names);
        let (diss_send, diss_recv) = open_channel::<ProcTag>();
        let mut memory_context = HistoryContext::new(diss_recv);
        let mut parties: Vec<Participant> = Vec::new();
        let ghost n = seats0.len();
        while seats.len() > 0
            invariant
                n == seats0.len(),
                ids0 == seat_ids(seats0),
                states0 == Seq::new(seats0.len(), |k: int| views(seats0[k].state@)),
                parties.len() + seats.len() == n,
                seats@ == seats0.subrange(parties.len() as int, n as int),
                entry_names(memory_context.hist_tag_recv@) == ids0.take(parties.len() as int),
                entry_names(memory_context.hist_not_send@) == ids0.take(parties.len() as int),
                entry_names(memory_context.roll_tag_recv@) == ids0.take(parties.len() as int),
                entry_names(memory_context.roll_frz_send@) == ids0.take(parties.len() as int),
                entry_names(memory_context.ress_tag_send@) == ids0.take(parties.len() as int),
                part_ch_pool.wf(),
                part_ch_pool.names() == all_names,
                all_names.no_duplicates(),
                all_names.to_set() == all_chan_names(states0, n as int),
                forall|j: int|
                    0 <= j < parties.len() ==> {
                        let p = #[trigger] parties[j];
                        &&& p.wf()
                        &&& p.context().id() == ids0[j]
                        &&& p.context().tags().prefix() == ids0[j]
                        &&& p.context().tags().count() == 0
                        &&& p.state().live == states0[j]
                        &&& p.state().dead == Seq::<TaggedPrimProcView>::empty()
                        &&& p.state().frozen == Set::<ProcTagView>::empty()
                        &&& p.context().comm().channel_pool.names() == all_names
                    },
            decreases seats.len(),
        {
            let ghost k = parties.len() as int;
            let ghost rest = seats@;
            let seat = seats.remove(0);
            proof {
                assert(seat == rest[0]);
                assert(rest[0] == seats0[k]);
                assert(seats@ =~= seats0.subrange(k + 1, n as int));
            }
            let Seat { id, strategy, state } = seat;
            let (h_tag_send, h_tag_recv) = open_channel::<MemoryPiece>();
            let (h_not_send, h_not_recv) = open_channel::<TagKey>();
            let (r_tag_send, r_tag_recv) = open_channel::<ProcTag>();
            let (r_frz_send, r_frz_recv) = open_channel::<ProcTag>();
            let (s_tag_send, s_tag_recv) = open_channel::<RessurectMsg>();
            assert(id@ == ids0[k]);
            memory_context.hist_tag_recv.push((id.clone(), h_tag_recv));
            memory_context.hist_not_send.push((id.clone(), h_not_send));
            memory_context.roll_tag_recv.push((id.clone(), r_tag_recv));
            memory_context.roll_frz_send.push((id.clone(), r_frz_send));
            memory_context.ress_tag_send.push((id.clone(), s_tag_send));
            proof {
                let want = ids0.take(k + 1);
                assert(want =~= ids0.take(k).push(ids0[k]));
                assert(entry_names(memory_context.hist_tag_recv@) =~= want);
                assert(entry_names(memory_context.hist_not_send@) =~= want);
                assert(entry_names(memory_context.roll_tag_recv@) =~= want);
                assert(entry_names(memory_context.roll_frz_send@) =~= want);
                assert(entry_names(memory_context.ress_tag_send@) =~= want);
            }
            let c_ctx = PartyCommCtx {
                channel_pool: part_ch_pool.clone(),
                history_ctx: HistTagContext {
                    hist_tag_channel: h_tag_send,
                    hist_conf_channel: h_not_recv,
                },
                rollback_ctx: RollbackContext {
                    roll_tag_channel: r_tag_send,
                    freeze_not_channel: r_frz_recv,
                },
                dissapear_ctx: DissapearContext { diss_send_channel: share_sender(&diss_send) },
                ressurect_ctx: RessurectContext { ress_recv_channel: s_tag_recv },
            };
            let ghost before = parties@;
            let party = Participant::new(id, state, strategy, c_ctx);
            parties.push(party);
            proof {
                assert forall|j: int| 0 <= j < parties.len() implies {
                    let p = #[trigger] parties[j];
                    &&& p.wf()
                    &&& p.context().id() == ids0[j]
                    &&& p.context().tags().prefix() == ids0[j]
                    &&& p.context().tags().count() == 0
                    &&& p.state().live == states0[j]
                    &&& p.state().dead == Seq::<TaggedPrimProcView>::empty()
                    &&& p.state().frozen == Set::<ProcTagView>::empty()
                    &&& p.context().comm().channel_pool.names() == all_names
                } by {
                    if j < k {
                        assert(parties[j] == before[j]);
                    } else {
                        assert(parties[j] == party);
                        assert(ids0[k] == seats0[k].id@);
                        assert(states0[k] == views(seats0[k].state@));
                    }
                }
            }
        }
        proof {
            assert(ids0.take(n as int) =~= ids0);
            lemma_entry_ids(memory_context.hist_tag_recv@);
            lemma_entry_ids(memory_context.hist_not_send@);
            lemma_entry_ids(memory_context.roll_tag_recv@);
            lemma_entry_ids(memory_context.roll_frz_send@);
            lemma_entry_ids(memory_context.ress_tag_send@);
        }
        let hist = HistoryParticipant::new(memory_context);
        (parties, hist)
    }
}

} // verus!
