//! The resource ledger: what a player holds of each of the five producing kinds.
use crate::error::GameError;
use vstd::prelude::*;

verus! {

/// What a hexagon yields. `Desert` yields nothing and never enters a ledger.
#[derive(Clone, Copy, Debug, PartialEq, Eq, Structural)]
pub enum Resource {
    Block,
    Rock,
    Timber,
    Fiber,
    Cereal,
    Desert,
}

/// How often `kind` occurs in `batch`.
pub open spec fn tally(batch: Seq<Resource>, kind: Resource) -> nat
    decreases batch.len(),
{
    if batch.len() == 0 {
        0
    } else {
        tally(batch.drop_last(), kind) + if batch.last() == kind {
            1nat
        } else {
            0nat
        }
    }
}

/// A batch of one kind taken `n` times holds that kind `n` times and nothing else.
pub proof fn lemma_tally_uniform(batch: Seq<Resource>, of: Resource, kind: Resource)
    requires
        forall|i: int| 0 <= i < batch.len() ==> batch[i] == of,
    ensures
        tally(batch, kind) == if kind == of {
            batch.len()
        } else {
            0
        },
    decreases batch.len(),
{
    if batch.len() > 0 {
        lemma_tally_uniform(batch.drop_last(), of, kind);
    }
}

/// A kind that does not occur in a batch has tally zero, and the other way round.
pub proof fn lemma_tally_zero(batch: Seq<Resource>, kind: Resource)
    ensures
        tally(batch, kind) == 0 <==> !batch.contains(kind),
        tally(batch, kind) <= batch.len(),
    decreases batch.len(),
{
    if batch.len() > 0 {
        lemma_tally_zero(batch.drop_last(), kind);
        if batch.last() == kind {
            assert(batch[batch.len() - 1] == kind);
        } else if batch.contains(kind) {
            let i = choose|i: int| 0 <= i < batch.len() && batch[i] == kind;
            assert(batch.drop_last()[i] == kind);
        } else {
            assert forall|i: int| 0 <= i < batch.drop_last().len() implies batch.drop_last()[i]
                != kind by {
                assert(batch[i] != kind);
            }
        }
    }
}

/// A player's holdings: one counter for each producing kind.
#[derive(Clone, Copy, Debug, PartialEq, Eq, Structural)]
pub struct ResourceList {
    pub block: u16,
    pub rock: u16,
    pub timber: u16,
    pub fiber: u16,
    pub cereal: u16,
}

impl ResourceList {
    /// The units held of `kind`; none of the non-producing kind.
    pub open spec fn amount(self, kind: Resource) -> nat {
        match kind {
            Resource::Block => self.block as nat,
            Resource::Rock => self.rock as nat,
            Resource::Timber => self.timber as nat,
            Resource::Fiber => self.fiber as nat,
            Resource::Cereal => self.cereal as nat,
            Resource::Desert => 0,
        }
    }

    /// The units held of all kinds together.
    pub open spec fn total(self) -> nat {
        (self.block + self.rock + self.timber + self.fiber + self.cereal) as nat
    }

    /// Whether the ledger can pay `batch`: the batch holds no `Desert` and asks of no kind
    /// more than is held.
    pub open spec fn covers(self, batch: Seq<Resource>) -> bool {
        &&& !batch.contains(Resource::Desert)
        &&& forall|kind: Resource| tally(batch, kind) <= #[trigger] self.amount(kind)
    }

    /// Whether the ledger can take `batch` in: the batch holds no `Desert` and no counter
    /// would pass the largest value it can hold.
    pub open spec fn has_room_for(self, batch: Seq<Resource>) -> bool {
        &&& !batch.contains(Resource::Desert)
        &&& forall|kind: Resource| #[trigger] self.amount(kind) + tally(batch, kind) <= u16::MAX
    }

    /// The ledger with `batch` added to it.
    pub open spec fn plus(self, batch: Seq<Resource>) -> ResourceList {
        ResourceList {
            block: (self.block + tally(batch, Resource::Block)) as u16,
            rock: (self.rock + tally(batch, Resource::Rock)) as u16,
            timber: (self.timber + tally(batch, Resource::Timber)) as u16,
            fiber: (self.fiber + tally(batch, Resource::Fiber)) as u16,
            cereal: (self.cereal + tally(batch, Resource::Cereal)) as u16,
        }
    }

    /// The ledger with `batch` taken from it.
    pub open spec fn minus(self, batch: Seq<Resource>) -> ResourceList {
        ResourceList {
            block: (self.block - tally(batch, Resource::Block)) as u16,
            rock: (self.rock - tally(batch, Resource::Rock)) as u16,
            timber: (self.timber - tally(batch, Resource::Timber)) as u16,
            fiber: (self.fiber - tally(batch, Resource::Fiber)) as u16,
            cereal: (self.cereal - tally(batch, Resource::Cereal)) as u16,
        }
    }

    /// What `deposit` does with `batch`: the new ledger, or the reason for leaving it as it is.
    pub open spec fn deposited(self, batch: Seq<Resource>) -> Result<ResourceList, GameError> {
        if batch.contains(Resource::Desert) {
            Err(GameError::DesertDeposit)
        } else if !self.has_room_for(batch) {
            Err(GameError::ResourceLimit)
        } else {
            Ok(self.plus(batch))
        }
    }

    /// What `deduct` does with `batch`: the new ledger, or the reason for leaving it as it is.
    pub open spec fn deducted(self, batch: Seq<Resource>) -> Result<ResourceList, GameError> {
        if batch.contains(Resource::Desert) {
            Err(GameError::DesertDeduct)
        } else if !self.covers(batch) {
            Err(GameError::InsufficientResources)
        } else {
            Ok(self.minus(batch))
        }
    }

    /// What `trade` does: three units of `have` leave, then one unit of `want` comes in.
    pub open spec fn traded(self, have: Resource, want: Resource) -> Result<
        ResourceList,
        GameError,
    > {
        match self.deducted(seq![have, have, have]) {
            Err(e) => Err(e),
            Ok(paid) => paid.deposited(seq![want]),
        }
    }

    /// An empty ledger.
    pub fn new() -> (list: ResourceList)
        ensures
            forall|kind: Resource| list.amount(kind) == 0,
            list == (ResourceList { block: 0, rock: 0, timber: 0, fiber: 0, cereal: 0 }),
    {
        ResourceList { block: 0, rock: 0, timber: 0, fiber: 0, cereal: 0 }
    }

    /// The five counters, each with its kind, in the order block, rock, timber, fiber, cereal.
    pub fn to_array(&self) -> (pairs: [(Resource, u16); 5])
        ensures
            pairs@ == seq![
                (Resource::Block, self.block),
                (Resource::Rock, self.rock),
                (Resource::Timber, self.timber),
                (Resource::Fiber, self.fiber),
                (Resource::Cereal, self.cereal),
            ],
            forall|i: int| 0 <= i < 5 ==> (#[trigger] pairs@[i]).1 == self.amount(pairs@[i].0),
    {
        [
            (Resource::Block, self.block),
            (Resource::Rock, self.rock),
            (Resource::Timber, self.timber),
            (Resource::Fiber, self.fiber),
            (Resource::Cereal, self.cereal),
        ]
    }

    /// The number of units held, all kinds together.
    pub fn count(&self) -> (n: u32)
        ensures
            n == self.total(),
    {
        self.block as u32 + self.rock as u32 + self.timber as u32 + self.fiber as u32
            + self.cereal as u32
    }

    /// Counts a batch: how often each producing kind occurs in it, and whether `Desert` does.
    fn bill<const N: usize>(resources: &[Resource; N]) -> (out: ([usize; 5], bool))
        ensures
            out.0@[0] == tally(resources@, Resource::Block),
            out.0@[1] == tally(resources@, Resource::Rock),
            out.0@[2] == tally(resources@, Resource::Timber),
            out.0@[3] == tally(resources@, Resource::Fiber),
            out.0@[4] == tally(resources@, Resource::Cereal),
            out.1 == resources@.contains(Resource::Desert),
    {
        let mut block: usize = 0;
        let mut rock: usize = 0;
        let mut timber: usize = 0;
        let mut fiber: usize = 0;
        let mut cereal: usize = 0;
        let mut desert: usize = 0;
        let mut i: usize = 0;
        while i < N
            invariant
                i <= N,
                N == resources@.len(),
                block == tally(resources@.take(i as int), Resource::Block),
                rock == tally(resources@.take(i as int), Resource::Rock),
                timber == tally(resources@.take(i as int), Resource::Timber),
                fiber == tally(resources@.take(i as int), Resource::Fiber),
                cereal == tally(resources@.take(i as int), Resource::Cereal),
                desert == tally(resources@.take(i as int), Resource::Desert),
                block + rock + timber + fiber + cereal + desert == i,
            decreases N - i,
        {
            proof {
                assert(resources@.take(i + 1).drop_last() =~= resources@.take(i as int));
            }
            match resources[i] {
                Resource::Block => { block += 1; },
                Resource::Rock => { rock += 1; },
                Resource::Timber => { timber += 1; },
                Resource::Fiber => { fiber += 1; },
                Resource::Cereal => { cereal += 1; },
                Resource::Desert => { desert += 1; },
            }
            i += 1;
        }
        proof {
            assert(resources@.take(N as int) =~= resources@);
            lemma_tally_zero(resources@, Resource::Desert);
        }
        ([block, rock, timber, fiber, cereal], desert > 0)
    }

    /// Adds a batch to the ledger. Nothing changes when the batch holds `Desert`, or when
    /// a counter cannot hold what it would be given.
    pub fn deposit<const N: usize>(&mut self, resources: [Resource; N]) -> (result: Result<
        (),
        GameError,
    >)
        ensures
            match old(self).deposited(resources@) {
                Ok(list) => result is Ok && *final(self) == list,
                Err(e) => result == Err::<(), GameError>(e) && *final(self) == *old(self),
            },
    {
        let (bill, desert) = Self::bill(&resources);
        if desert {
            return Err(GameError::DesertDeposit);
        }
        let limit: usize = 0xffff;
        if bill[0] > limit - self.block as usize || bill[1] > limit - self.rock as usize || bill[2]
            > limit - self.timber as usize || bill[3] > limit - self.fiber as usize || bill[4]
            > limit - self.cereal as usize {
            proof {
                let b = resources@;
                assert(!(self.amount(Resource::Block) + tally(b, Resource::Block) <= u16::MAX
                    && self.amount(Resource::Rock) + tally(b, Resource::Rock) <= u16::MAX
                    && self.amount(Resource::Timber) + tally(b, Resource::Timber) <= u16::MAX
                    && self.amount(Resource::Fiber) + tally(b, Resource::Fiber) <= u16::MAX
                    && self.amount(Resource::Cereal) + tally(b, Resource::Cereal) <= u16::MAX));
            }
            return Err(GameError::ResourceLimit);
        }
        proof {
            lemma_tally_zero(resources@, Resource::Desert);
            assert forall|kind: Resource| #[trigger]
                self.amount(kind) + tally(resources@, kind) <= u16::MAX by {
                match kind {
                    _ => {},
                }
            }
        }
        self.block = self.block + bill[0] as u16;
        self.rock = self.rock + bill[1] as u16;
        self.timber = self.timber + bill[2] as u16;
        self.fiber = self.fiber + bill[3] as u16;
        self.cereal = self.cereal + bill[4] as u16;
        Ok(())
    }

    /// Takes a batch from the ledger. Nothing changes when the batch holds `Desert`, or
    /// when it asks of some kind more than is held.
    pub fn deduct<const N: usize>(&mut self, resources: [Resource; N]) -> (result: Result<
        (),
        GameError,
    >)
        ensures
            match old(self).deducted(resources@) {
                Ok(list) => result is Ok && *final(self) == list,
                Err(e) => result == Err::<(), GameError>(e) && *final(self) == *old(self),
            },
    {
        let (bill, desert) = Self::bill(&resources);
        if desert {
            return Err(GameError::DesertDeduct);
        }
        if bill[0] > self.block as usize || bill[1] > self.rock as usize || bill[2]
            > self.timber as usize || bill[3] > self.fiber as usize || bill[4]
            > self.cereal as usize {
            proof {
                let b = resources@;
                assert(!(tally(b, Resource::Block) <= self.amount(Resource::Block) && tally(
                    b,
                    Resource::Rock,
                ) <= self.amount(Resource::Rock) && tally(b, Resource::Timber) <= self.amount(
                    Resource::Timber,
                ) && tally(b, Resource::Fiber) <= self.amount(Resource::Fiber) && tally(
                    b,
                    Resource::Cereal,
                ) <= self.amount(Resource::Cereal)));
            }
            return Err(GameError::InsufficientResources);
        }
        proof {
            lemma_tally_zero(resources@, Resource::Desert);
            assert forall|kind: Resource| tally(resources@, kind) <= #[trigger] self.amount(
                kind,
            ) by {
                match kind {
                    _ => {},
                }
            }
        }
        self.block = self.block - bill[0] as u16;
        self.rock = self.rock - bill[1] as u16;
        self.timber = self.timber - bill[2] as u16;
        self.fiber = self.fiber - bill[3] as u16;
        self.cereal = self.cereal - bill[4] as u16;
        Ok(())
    }

    /// Whether `deduct` of this batch would succeed on the ledger as it stands.
    pub fn check<const N: usize>(&self, resources: [Resource; N]) -> (affordable: bool)
        ensures
            affordable == self.covers(resources@),
            affordable == (self.deducted(resources@) is Ok),
    {
        let mut copy = *self;
        copy.deduct(resources).is_ok()
    }

    /// Gives three units of `have` for one unit of `want`. Nothing changes unless both
    /// halves can be done.
    pub fn trade(&mut self, have: Resource, want: Resource) -> (result: Result<(), GameError>)
        ensures
            match old(self).traded(have, want) {
                Ok(list) => result is Ok && *final(self) == list,
                Err(e) => result == Err::<(), GameError>(e) && *final(self) == *old(self),
            },
    {
        let mut copy = *self;
        let price = [have, have, have];
        let goods = [want];
        proof {
            assert(price@ =~= seq![have, have, have]);
            assert(goods@ =~= seq![want]);
        }
        match copy.deduct(price) {
            Err(e) => Err(e),
            Ok(()) => match copy.deposit(goods) {
                Err(e) => Err(e),
                Ok(()) => {
                    *self = copy;
                    Ok(())
                },
            },
        }
    }
}

/// A batch of three units of one kind and a batch of one unit, counted.
pub proof fn lemma_tally_small(have: Resource, want: Resource, kind: Resource)
    ensures
        tally(seq![have, have, have], kind) == if kind == have {
            3nat
        } else {
            0nat
        },
        tally(seq![want], kind) == if kind == want {
            1nat
        } else {
            0nat
        },
{
    lemma_tally_uniform(seq![have, have, have], have, kind);
    lemma_tally_uniform(seq![want], want, kind);
}

/// Depositing a batch and then deducting the same batch gives the ledger back as it was.
pub proof fn law_deposit_then_deduct(list: ResourceList, batch: Seq<Resource>)
    ensures
        list.deposited(batch) matches Ok(fuller) ==> fuller.deducted(batch) == Ok::<
            ResourceList,
            GameError,
        >(list),
{
    if let Ok(fuller) = list.deposited(batch) {
        lemma_tally_zero(batch, Resource::Desert);
        assert(list.amount(Resource::Block) + tally(batch, Resource::Block) <= u16::MAX);
        assert(list.amount(Resource::Rock) + tally(batch, Resource::Rock) <= u16::MAX);
        assert(list.amount(Resource::Timber) + tally(batch, Resource::Timber) <= u16::MAX);
        assert(list.amount(Resource::Fiber) + tally(batch, Resource::Fiber) <= u16::MAX);
        assert(list.amount(Resource::Cereal) + tally(batch, Resource::Cereal) <= u16::MAX);
        assert forall|kind: Resource| tally(batch, kind) <= #[trigger] fuller.amount(kind) by {
            match kind {
                _ => {},
            }
        }
        assert(fuller.minus(batch) == list);
    }
}

/// A deduction that succeeds takes from each counter what the batch holds of its kind, so
/// no counter passes below zero; one that would is refused.
pub proof fn law_deduct_never_overdraws(list: ResourceList, batch: Seq<Resource>, kind: Resource)
    ensures
        list.deducted(batch) matches Ok(rest) ==> rest.amount(kind) + tally(batch, kind)
            == list.amount(kind),
        tally(batch, kind) > list.amount(kind) ==> list.deducted(batch) is Err,
{
    if let Ok(rest) = list.deducted(batch) {
        assert(tally(batch, kind) <= list.amount(kind));
        lemma_tally_zero(batch, Resource::Desert);
    }
}

/// A batch that holds the non-producing kind is refused by deposit and by deduction alike.
pub proof fn law_desert_is_refused(list: ResourceList, batch: Seq<Resource>)
    requires
        batch.contains(Resource::Desert),
    ensures
        list.deposited(batch) == Err::<ResourceList, GameError>(GameError::DesertDeposit),
        list.deducted(batch) == Err::<ResourceList, GameError>(GameError::DesertDeduct),
{
}

/// A trade that succeeds takes exactly three units of the kind given and adds exactly one
/// unit of the kind wanted, and touches no other counter.
pub proof fn law_trade_three_for_one(
    list: ResourceList,
    have: Resource,
    want: Resource,
    kind: Resource,
)
    ensures
        list.traded(have, want) matches Ok(after) ==> after.amount(kind) + (if kind == have {
            3nat
        } else {
            0nat
        }) == list.amount(kind) + (if kind == want {
            1nat
        } else {
            0nat
        }),
        list.traded(have, want) is Ok ==> have != Resource::Desert && want != Resource::Desert,
{
    lemma_tally_small(have, want, kind);
    lemma_tally_small(have, want, Resource::Desert);
    lemma_tally_zero(seq![have, have, have], Resource::Desert);
    lemma_tally_zero(seq![want], Resource::Desert);
    if let Ok(paid) = list.deducted(seq![have, have, have]) {
        assert(tally(seq![have, have, have], kind) <= list.amount(kind));
        if let Ok(after) = paid.deposited(seq![want]) {
            assert(paid.amount(kind) + tally(seq![want], kind) <= u16::MAX);
        }
    }
}

/// A trade is refused when fewer than three units of the kind given are held.
pub proof fn law_trade_needs_three(list: ResourceList, have: Resource, want: Resource)
    requires
        list.amount(have) < 3,
    ensures
        list.traded(have, want) is Err,
{
    lemma_tally_small(have, want, have);
    if list.deducted(seq![have, have, have]) is Ok {
        assert(tally(seq![have, have, have], have) <= list.amount(have));
    }
}

} // verus!
