//! Two answers to one question, side by side: does a net's signal reach a cell?
//! One answer comes from walking the blocks of a world without running them; the
//! other from running the world until it settles. What is compared, cell by cell
//! and in both directions, is what decides whether the walk can be trusted as a
//! judge.
//!
//! Running a world is done elsewhere. Here it is decided which worlds are to be
//! run, and what is made of the worlds that come back.

use crate::compile::cells;
use crate::compile::circuit;
use crate::compile::netlist;
use crate::compile::netlist::Netlist;
use crate::compile::routing_stats;
use crate::compile::routing_stats::{Net, Source};
use crate::redstone::block;
use crate::redstone::block::{BlockKind, BlockState};
use crate::redstone::position::Position;
use crate::redstone::world::World;
use crate::text;
use vstd::arithmetic::power2;
use vstd::prelude::*;

verus! {

/// The part that a compared cell plays, by what stands there.
#[derive(Debug, Clone, Copy, PartialEq, Eq, PartialOrd, Ord, Structural)]
pub enum CellClass {
    /// Something that carries a signal.
    Conductor,
    /// The block under a gate's torch, which the judge reads.
    Support,
    /// Anything else: reported, and never a disagreement.
    Floor,
}

/// How a block is powered.
#[derive(Debug, Clone, Copy, PartialEq, Eq, Structural)]
pub enum BlockPower {
    Unpowered,
    Weak,
    Strong,
}

/// What a settled world says of one cell: whether its block sends out power of
/// its own, how much, how the block is powered, and how strongly.
#[derive(Debug, Clone, Copy, PartialEq, Eq, Structural)]
pub struct CellPower {
    pub emits: bool,
    pub emitted: u8,
    pub power: BlockPower,
    pub strength: u8,
}

/// A world that has settled, with what it says of each cell.
pub struct Settled {
    pub world: World,
    pub powers: Vec<CellPower>,
}

impl Settled {
    /// There is an answer for every cell.
    pub open spec fn wf(self) -> bool {
        self.world.wf() && self.powers@.len() == self.world.numbers().len()
    }

    /// What the world says of a cell; nothing is powered outside.
    pub open spec fn power_at(self, cell: Position) -> CellPower {
        let (x, y, z) = (cell.x as int, cell.y as int, cell.z as int);
        if self.world.holds(x, y, z) {
            self.powers@[crate::redstone::world::cell_index(
                self.world.sizes().0,
                self.world.sizes().2,
                x,
                y,
                z,
            )]
        } else {
            CellPower { emits: false, emitted: 0, power: BlockPower::Unpowered, strength: 0 }
        }
    }

    fn power(&self, cell: Position) -> (power: CellPower)
        requires
            self.wf(),
        ensures
            power == self.power_at(cell),
    {
        match self.world.index_of(cell.x, cell.y, cell.z) {
            Some(index) => self.powers[index],
            None => CellPower { emits: false, emitted: 0, power: BlockPower::Unpowered, strength: 0 },
        }
    }
}

pub open spec fn at_least_one(strength: u8) -> u8 {
    if strength == 0 {
        1
    } else {
        strength
    }
}

/// What a settled cell carries: what it sends out, where it sends anything out,
/// and else what a reader of it would see.
pub open spec fn carries(power: CellPower) -> u8 {
    if power.emits {
        at_least_one(power.emitted)
    } else {
        match power.power {
            BlockPower::Unpowered => 0,
            _ => at_least_one(power.strength),
        }
    }
}

/// What a settled world says that a cell carries.
pub fn observed(settled: &Settled, cell: Position) -> (strength: u8)
    requires
        settled.wf(),
    ensures
        strength == carries(settled.power_at(cell)),
{
    let power: CellPower = settled.power(cell);
    let strength: u8 = if power.emits {
        power.emitted
    } else {
        match power.power {
            BlockPower::Unpowered => return 0,
            _ => power.strength,
        }
    };
    if strength == 0 {
        1
    } else {
        strength
    }
}

/// Whether a settled world powers a cell strongly, which alone drives dust on.
pub fn observed_strong(settled: &Settled, cell: Position) -> (strong: bool)
    requires
        settled.wf(),
    ensures
        strong == (settled.power_at(cell).power == BlockPower::Strong),
{
    match settled.power(cell).power {
        BlockPower::Strong => true,
        _ => false,
    }
}

pub open spec fn class_of(world: World, cell: Position, is_sink: bool) -> CellClass {
    let kind = world.at(cell.x as int, cell.y as int, cell.z as int).kind;
    if is_sink {
        CellClass::Support
    } else if kind == BlockKind::RedstoneWire || kind == BlockKind::Repeater || kind
        == BlockKind::Comparator {
        CellClass::Conductor
    } else {
        CellClass::Floor
    }
}

fn classify(world: &World, cell: Position, is_sink: bool) -> (class: CellClass)
    requires
        world.wf(),
    ensures
        class == class_of(*world, cell, is_sink),
{
    if is_sink {
        return CellClass::Support;
    }
    match world.get(cell.x, cell.y, cell.z).kind {
        BlockKind::RedstoneWire | BlockKind::Repeater | BlockKind::Comparator => {
            CellClass::Conductor
        },
        _ => CellClass::Floor,
    }
}

/// One cell, as both answers see it.
#[derive(Debug, Clone, Copy, PartialEq, Eq, Structural)]
pub struct Reading {
    pub cell: Position,
    pub class: CellClass,
    pub kind: BlockKind,
    /// Whether the judge reads the cell.
    pub is_sink: bool,
    /// What the walk recorded; zero where it recorded nothing.
    pub walk: u8,
    /// What the settled world carries there.
    pub live: u8,
    /// What the same world carries there without the group's origins.
    pub control: u8,
    /// The most that one origin of the group delivers there, alone in the world.
    pub solo: u8,
    /// The origin that delivers it.
    pub solo_origin: Option<Position>,
    /// Whether the settled world powers the cell strongly.
    pub live_strong: bool,
}

impl Reading {
    /// Whether the group, on its own, delivers power to the cell. Only an origin
    /// alone in the world can show it: a difference between two worlds vanishes
    /// where another net holds the cell.
    pub fn attributed(&self) -> (delivered: bool)
        ensures
            delivered == (self.solo > 0),
    {
        self.solo > 0
    }

    /// Whether the difference between the two worlds shows the group there.
    pub fn attributed_by_difference(&self) -> (differs: bool)
        ensures
            differs == (self.live > 0 && self.live != self.control),
    {
        self.live > 0 && self.live != self.control
    }

    /// Whether the walk reaches the cell.
    pub fn walk_reaches(&self) -> (reached: bool)
        ensures
            reached == (self.walk > 0),
    {
        self.walk > 0
    }
}

/// Which way a disagreement runs.
#[derive(Debug, Clone, Copy, PartialEq, Eq, PartialOrd, Ord, Structural)]
pub enum Direction {
    /// The walk does not reach a cell that power is delivered to.
    FalseRefusal,
    /// The walk reaches a cell that no power is delivered to.
    FalsePass,
}

/// How the two answers disagree on a cell, if they do and it is no floor.
pub open spec fn disagreement(reading: Reading) -> Option<Direction> {
    if reading.class == CellClass::Floor {
        None
    } else if reading.walk == 0 && reading.solo > 0 {
        Some(Direction::FalseRefusal)
    } else if reading.walk > 0 && reading.solo == 0 {
        Some(Direction::FalsePass)
    } else {
        None
    }
}

fn disagrees(reading: &Reading) -> (direction: Option<Direction>)
    ensures
        direction == disagreement(*reading),
{
    match reading.class {
        CellClass::Floor => return None,
        _ => {},
    }
    if !reading.walk_reaches() && reading.attributed() {
        Some(Direction::FalseRefusal)
    } else if reading.walk_reaches() && !reading.attributed() {
        Some(Direction::FalsePass)
    } else {
        None
    }
}

/// The disagreements among the first `count` readings.
pub open spec fn disagreeing(readings: Seq<Reading>, count: nat) -> Seq<(Direction, Reading)>
    decreases count,
{
    if count == 0 {
        seq![]
    } else {
        let before = disagreeing(readings, (count - 1) as nat);
        match disagreement(readings[count - 1]) {
            Some(direction) => before.push((direction, readings[count - 1])),
            None => before,
        }
    }
}

pub open spec fn listed<'a>(found: Seq<(Direction, &'a Reading)>) -> Seq<(Direction, Reading)> {
    Seq::new(found.len(), |i: int| (found[i].0, *found[i].1))
}

/// The comparison for one group of nets.
#[derive(Debug)]
pub struct GroupReport {
    pub root: usize,
    /// The nets of the group, by name.
    pub nets: Vec<String>,
    /// The origins, and whether each sends out power at the vector.
    pub origins: Vec<(Position, bool)>,
    /// What the inputs were set to.
    pub vector: Vec<(String, bool)>,
    pub readings: Vec<Reading>,
}

/// The disagreement is at a cell that the judge reads.
pub open spec fn sink_pair() -> spec_fn((Direction, Reading)) -> bool {
    |one: (Direction, Reading)| one.1.is_sink
}

impl GroupReport {
    /// Every cell, floors apart, on which the two answers disagree.
    pub fn disagreements(&self) -> (found: Vec<(Direction, &Reading)>)
        ensures
            listed(found@) == disagreeing(self.readings@, self.readings@.len()),
    {
        let mut found: Vec<(Direction, &Reading)> = Vec::new();
        let mut at: usize = 0;
        assert(listed(found@) =~= disagreeing(self.readings@, 0));
        while at < self.readings.len()
            invariant
                at <= self.readings@.len(),
                listed(found@) == disagreeing(self.readings@, at as nat),
            decreases self.readings@.len() - at,
        {
            let reading: &Reading = &self.readings[at];
            let ghost before = found@;
            if let Some(direction) = disagrees(reading) {
                found.push((direction, reading));
                assert(listed(found@) =~= listed(before).push((direction, *reading)));
            }
            at = at + 1;
        }
        found
    }

    /// The disagreements at cells that the judge reads, which alone can change a
    /// verdict.
    pub fn decisive(&self) -> (found: Vec<(Direction, &Reading)>)
        ensures
            listed(found@) == disagreeing(self.readings@, self.readings@.len()).filter(sink_pair()),
    {
        let all: Vec<(Direction, &Reading)> = self.disagreements();
        let ghost every = listed(all@);
        let mut found: Vec<(Direction, &Reading)> = Vec::new();
        let mut at: usize = 0;
        proof {
            every.take(0).lemma_filter_len(sink_pair());
            assert(listed(found@) =~= every.take(0).filter(sink_pair()));
        }
        while at < all.len()
            invariant
                at <= all@.len(),
                every == listed(all@),
                listed(found@) == every.take(at as int).filter(sink_pair()),
            decreases all@.len() - at,
        {
            let (direction, reading) = all[at];
            let ghost before = found@;
            proof {
                assert(every.take(at + 1) =~= every.take(at as int).push(every[at as int]));
                every.take(at as int).lemma_filter_push(every[at as int], sink_pair());
            }
            if reading.is_sink {
                found.push((direction, reading));
                assert(listed(found@) =~= listed(before).push((direction, *reading)));
            }
            at = at + 1;
        }
        assert(every.take(at as int) =~= every);
        found
    }

    pub fn every_origin_live(&self) -> (live: bool)
        ensures
            live == (forall|i: int| 0 <= i < self.origins@.len() ==> (#[trigger] self.origins@[i]).1),
    {
        let mut at: usize = 0;
        while at < self.origins.len()
            invariant
                at <= self.origins@.len(),
                forall|i: int| 0 <= i < at ==> (#[trigger] self.origins@[i]).1,
            decreases self.origins@.len() - at,
        {
            if !self.origins[at].1 {
                return false;
            }
            at = at + 1;
        }
        true
    }
}

/// The comparison for a whole circuit.
#[derive(Debug)]
pub struct Measurement {
    pub groups: Vec<GroupReport>,
    /// The groups and origins that could not be measured, and why.
    pub unmeasured: Vec<String>,
    /// What the walk makes the judge say; nothing means that it passes.
    pub replica_verdict: Option<String>,
    /// What the judge says.
    pub shipping_verdict: Option<String>,
    /// How many worlds were settled.
    pub settles: usize,
}

/// The disagreements in the first `count` groups, each with its group.
pub open spec fn all_disagreeing(groups: Seq<GroupReport>, count: nat) -> Seq<
    (GroupReport, Direction, Reading),
>
    decreases count,
{
    if count == 0 {
        seq![]
    } else {
        let group = groups[count - 1];
        let here = disagreeing(group.readings@, group.readings@.len());
        all_disagreeing(groups, (count - 1) as nat) + Seq::new(
            here.len(),
            |i: int| (group, here[i].0, here[i].1),
        )
    }
}

pub open spec fn all_listed<'a>(found: Seq<(&'a GroupReport, Direction, &'a Reading)>) -> Seq<
    (GroupReport, Direction, Reading),
> {
    Seq::new(found.len(), |i: int| (*found[i].0, found[i].1, *found[i].2))
}

pub open spec fn sink_triple() -> spec_fn((GroupReport, Direction, Reading)) -> bool {
    |one: (GroupReport, Direction, Reading)| one.2.is_sink
}

/// A reading that is compared.
pub open spec fn compared() -> spec_fn(Reading) -> bool {
    |reading: Reading| reading.class != CellClass::Floor
}

/// A reading that is only reported.
pub open spec fn floor() -> spec_fn(Reading) -> bool {
    |reading: Reading| reading.class == CellClass::Floor
}

/// The walk recorded a value where there is nothing.
pub open spec fn into_air() -> spec_fn(Reading) -> bool {
    |reading: Reading| reading.kind == BlockKind::Air && reading.walk > 0
}

/// How many readings of the first `count` groups are of a sort.
pub open spec fn readings_of(
    groups: Seq<GroupReport>,
    sort: spec_fn(Reading) -> bool,
    count: nat,
) -> nat
    decreases count,
{
    if count == 0 {
        0
    } else {
        readings_of(groups, sort, (count - 1) as nat) + groups[count - 1].readings@.filter(
            sort,
        ).len()
    }
}

/// How many readings there are in the first `count` groups.
pub open spec fn all_readings(groups: Seq<GroupReport>, count: nat) -> nat
    decreases count,
{
    if count == 0 {
        0
    } else {
        all_readings(groups, (count - 1) as nat) + groups[count - 1].readings@.len()
    }
}

proof fn lemma_all_readings_grow(groups: Seq<GroupReport>, few: nat, many: nat)
    requires
        few <= many,
    ensures
        all_readings(groups, few) <= all_readings(groups, many),
    decreases many - few,
{
    if few < many {
        lemma_all_readings_grow(groups, few, (many - 1) as nat);
    }
}

impl Measurement {
    /// Every cell, floors apart, on which the two answers disagree, with its
    /// group.
    pub fn disagreements(&self) -> (found: Vec<(&GroupReport, Direction, &Reading)>)
        ensures
            all_listed(found@) == all_disagreeing(self.groups@, self.groups@.len()),
    {
        let mut found: Vec<(&GroupReport, Direction, &Reading)> = Vec::new();
        let mut g: usize = 0;
        assert(all_listed(found@) =~= all_disagreeing(self.groups@, 0));
        while g < self.groups.len()
            invariant
                g <= self.groups@.len(),
                all_listed(found@) == all_disagreeing(self.groups@, g as nat),
            decreases self.groups@.len() - g,
        {
            let here: Vec<(Direction, &Reading)> = self.groups[g].disagreements();
            let ghost before = all_listed(found@);
            let ghost tagged = Seq::new(
                here@.len(),
                |i: int| (self.groups@[g as int], here@[i].0, *here@[i].1),
            );
            let mut at: usize = 0;
            assert(before + tagged.take(0) =~= before);
            while at < here.len()
                invariant
                    g < self.groups@.len(),
                    at <= here@.len(),
                    tagged == Seq::new(
                        here@.len(),
                        |i: int| (self.groups@[g as int], here@[i].0, *here@[i].1),
                    ),
                    all_listed(found@) == before + tagged.take(at as int),
                decreases here@.len() - at,
            {
                let (direction, reading) = here[at];
                let ghost so_far = found@;
                found.push((&self.groups[g], direction, reading));
                at = at + 1;
                proof {
                    assert(all_listed(found@) =~= all_listed(so_far).push(tagged[at - 1]));
                    assert(before + tagged.take(at as int) =~= (before + tagged.take(
                        at - 1,
                    )).push(tagged[at - 1]));
                }
            }
            proof {
                let group = self.groups@[g as int];
                let expected = disagreeing(group.readings@, group.readings@.len());
                assert(listed(here@) == expected);
                assert(tagged =~= Seq::new(
                    expected.len(),
                    |i: int| (group, expected[i].0, expected[i].1),
                )) by {
                    assert forall|i: int| 0 <= i < expected.len() implies tagged[i] == (
                        group,
                        expected[i].0,
                        expected[i].1,
                    ) by {
                        assert(expected[i] == listed(here@)[i]);
                    }
                }
                assert(tagged.take(at as int) =~= tagged);
            }
            g = g + 1;
        }
        found
    }

    /// The disagreements at cells that the judge reads.
    pub fn decisive(&self) -> (found: Vec<(&GroupReport, Direction, &Reading)>)
        ensures
            all_listed(found@) == all_disagreeing(self.groups@, self.groups@.len()).filter(
                sink_triple(),
            ),
    {
        let all: Vec<(&GroupReport, Direction, &Reading)> = self.disagreements();
        let ghost every = all_listed(all@);
        let mut found: Vec<(&GroupReport, Direction, &Reading)> = Vec::new();
        let mut at: usize = 0;
        proof {
            every.take(0).lemma_filter_len(sink_triple());
            assert(all_listed(found@) =~= every.take(0).filter(sink_triple()));
        }
        while at < all.len()
            invariant
                at <= all@.len(),
                every == all_listed(all@),
                all_listed(found@) == every.take(at as int).filter(sink_triple()),
            decreases all@.len() - at,
        {
            let (group, direction, reading) = all[at];
            let ghost before = found@;
            proof {
                assert(every.take(at + 1) =~= every.take(at as int).push(every[at as int]));
                every.take(at as int).lemma_filter_push(every[at as int], sink_triple());
            }
            if reading.is_sink {
                found.push((group, direction, reading));
                assert(all_listed(found@) =~= all_listed(before).push(every[at as int]));
            }
            at = at + 1;
        }
        assert(every.take(at as int) =~= every);
        found
    }

    /// How many values the walk recorded where there is nothing.
    pub fn recorded_into_air(&self) -> (count: usize)
        requires
            all_readings(self.groups@, self.groups@.len()) <= usize::MAX,
        ensures
            count == readings_of(self.groups@, into_air(), self.groups@.len()),
    {
        let mut count: usize = 0;
        let mut g: usize = 0;
        while g < self.groups.len()
            invariant
                g <= self.groups@.len(),
                all_readings(self.groups@, self.groups@.len()) <= usize::MAX,
                count == readings_of(self.groups@, into_air(), g as nat),
                count <= all_readings(self.groups@, g as nat),
            decreases self.groups@.len() - g,
        {
            let readings: &Vec<Reading> = &self.groups[g].readings;
            let mut here: usize = 0;
            let mut at: usize = 0;
            proof {
                readings@.take(0).lemma_filter_len(into_air());
            }
            while at < readings.len()
                invariant
                    at <= readings@.len(),
                    here == readings@.take(at as int).filter(into_air()).len(),
                    here <= at,
                decreases readings@.len() - at,
            {
                let reading: Reading = readings[at];
                proof {
                    assert(readings@.take(at + 1) =~= readings@.take(at as int).push(reading));
                    readings@.take(at as int).lemma_filter_push(reading, into_air());
                }
                if reading.kind == BlockKind::Air && reading.walk > 0 {
                    here = here + 1;
                }
                at = at + 1;
            }
            proof {
                assert(readings@.take(at as int) =~= readings@);
                lemma_all_readings_grow(self.groups@, (g + 1) as nat, self.groups@.len());
            }
            count = count + here;
            g = g + 1;
        }
        count
    }

    /// How many cells were compared.
    pub fn cells_compared(&self) -> (count: usize)
        requires
            all_readings(self.groups@, self.groups@.len()) <= usize::MAX,
        ensures
            count == readings_of(self.groups@, compared(), self.groups@.len()),
    {
        let mut count: usize = 0;
        let mut g: usize = 0;
        while g < self.groups.len()
            invariant
                g <= self.groups@.len(),
                all_readings(self.groups@, self.groups@.len()) <= usize::MAX,
                count == readings_of(self.groups@, compared(), g as nat),
                count <= all_readings(self.groups@, g as nat),
            decreases self.groups@.len() - g,
        {
            let floors: usize = count_floors(&self.groups[g].readings);
            proof {
                lemma_all_readings_grow(self.groups@, (g + 1) as nat, self.groups@.len());
            }
            count = count + (self.groups[g].readings.len() - floors);
            g = g + 1;
        }
        count
    }

    /// How many floors were reported.
    pub fn floors_reported(&self) -> (count: usize)
        requires
            all_readings(self.groups@, self.groups@.len()) <= usize::MAX,
        ensures
            count == readings_of(self.groups@, floor(), self.groups@.len()),
    {
        let mut count: usize = 0;
        let mut g: usize = 0;
        while g < self.groups.len()
            invariant
                g <= self.groups@.len(),
                all_readings(self.groups@, self.groups@.len()) <= usize::MAX,
                count == readings_of(self.groups@, floor(), g as nat),
                count <= all_readings(self.groups@, g as nat),
            decreases self.groups@.len() - g,
        {
            let floors: usize = count_floors(&self.groups[g].readings);
            proof {
                lemma_all_readings_grow(self.groups@, (g + 1) as nat, self.groups@.len());
            }
            count = count + floors;
            g = g + 1;
        }
        count
    }
}

fn count_floors(readings: &Vec<Reading>) -> (count: usize)
    ensures
        count == readings@.filter(floor()).len(),
        readings@.len() - count == readings@.filter(compared()).len(),
        count <= readings@.len(),
{
    let mut count: usize = 0;
    let mut at: usize = 0;
    proof {
        readings@.take(0).lemma_filter_len(floor());
        readings@.take(0).lemma_filter_len(compared());
    }
    while at < readings.len()
        invariant
            at <= readings@.len(),
            count == readings@.take(at as int).filter(floor()).len(),
            at - count == readings@.take(at as int).filter(compared()).len(),
            count <= at,
        decreases readings@.len() - at,
    {
        let reading: Reading = readings[at];
        proof {
            assert(readings@.take(at + 1) =~= readings@.take(at as int).push(reading));
            readings@.take(at as int).lemma_filter_push(reading, floor());
            readings@.take(at as int).lemma_filter_push(reading, compared());
        }
        match reading.class {
            CellClass::Floor => {
                count = count + 1;
            },
            _ => {},
        }
        at = at + 1;
    }
    assert(readings@.take(at as int) =~= readings@);
    count
}

/// A vector of the inputs, by its number: the number's binary digits, the
/// greatest first.
pub open spec fn vector_of(inputs: nat, number: nat) -> Seq<bool>
    decreases inputs,
{
    if inputs == 0 {
        seq![]
    } else {
        vector_of((inputs - 1) as nat, number / 2).push(number % 2 == 1)
    }
}

pub fn input_vector(inputs: usize, number: usize) -> (bits: Vec<bool>)
    ensures
        bits@ == vector_of(inputs as nat, number as nat),
    decreases inputs,
{
    if inputs == 0 {
        return Vec::new();
    }
    let mut bits: Vec<bool> = input_vector(inputs - 1, number / 2);
    bits.push(number % 2 == 1);
    bits
}

/// Every setting of the inputs is the vector of one number.
pub proof fn lemma_every_vector_has_a_number(bits: Seq<bool>)
    ensures
        exists|number: nat|
            number < vstd::arithmetic::power2::pow2(bits.len()) && #[trigger] vector_of(
                bits.len(),
                number,
            ) == bits,
    decreases bits.len(),
{
    if bits.len() == 0 {
        vstd::arithmetic::power2::lemma2_to64();
        assert(vector_of(0, 0) =~= bits);
    } else {
        let before = bits.drop_last();
        lemma_every_vector_has_a_number(before);
        let half = choose|half: nat|
            half < vstd::arithmetic::power2::pow2(before.len()) && #[trigger] vector_of(
                before.len(),
                half,
            ) == before;
        let number = 2 * half + (if bits.last() {
            1nat
        } else {
            0nat
        });
        assert(number / 2 == half);
        vstd::arithmetic::power2::lemma_pow2_unfold(bits.len());
        assert(vector_of(bits.len(), number) =~= bits);
    }
}

/// How many vectors there are to sweep, unless there are too many inputs.
pub fn sweep_size(inputs: usize) -> (size: Result<usize, String>)
    ensures
        match size {
            Ok(count) => inputs <= 12 && count == vstd::arithmetic::power2::pow2(inputs as nat),
            Err(message) => inputs > 12 && message@ == text::decimal(inputs as nat)
                + " inputs is too many to sweep"@,
        },
{
    if inputs > 12 {
        let mut message: String = text::decimal_text(inputs as u64);
        message.append(" inputs is too many to sweep");
        return Err(message);
    }
    let mut count: usize = 1;
    let mut at: usize = 0;
    proof {
        vstd::arithmetic::power2::lemma2_to64();
    }
    while at < inputs
        invariant
            at <= inputs <= 12,
            count == vstd::arithmetic::power2::pow2(at as nat),
            count <= 4096,
        decreases inputs - at,
    {
        proof {
            vstd::arithmetic::power2::lemma_pow2_unfold((at + 1) as nat);
            vstd::arithmetic::power2::lemma2_to64();
            lemma_small_power((at + 1) as nat);
        }
        count = 2 * count;
        at = at + 1;
    }
    Ok(count)
}

proof fn lemma_small_power(exponent: nat)
    requires
        exponent <= 12,
    ensures
        vstd::arithmetic::power2::pow2(exponent) <= 4096,
    decreases 12 - exponent,
{
    vstd::arithmetic::power2::lemma2_to64();
    if exponent < 12 {
        lemma_small_power(exponent + 1);
        vstd::arithmetic::power2::lemma_pow2_unfold(exponent + 1);
    }
}

pub open spec fn at_cell(world: World, cell: Position) -> block::BlockView {
    world.at(cell.x as int, cell.y as int, cell.z as int)
}

/// The first lever, from one on, that is not one.
pub open spec fn first_no_lever(
    world: World,
    levers: Seq<(String, Position)>,
    from: int,
) -> Option<int>
    decreases levers.len() - from,
{
    if from < 0 || from >= levers.len() {
        None
    } else if at_cell(world, levers[from].1).kind != BlockKind::Lever {
        Some(from)
    } else {
        first_no_lever(world, levers, from + 1)
    }
}

/// The block at a cell once the first `count` levers are thrown.
pub open spec fn thrown(
    world: World,
    levers: Seq<(String, Position)>,
    bits: Seq<bool>,
    count: nat,
    cell: Position,
) -> block::BlockView
    decreases count,
{
    if count == 0 {
        at_cell(world, cell)
    } else {
        let before = thrown(world, levers, bits, (count - 1) as nat, cell);
        if levers[count - 1].1 == cell {
            block::BlockView { lit: bits[count - 1], ..before }
        } else {
            before
        }
    }
}

proof fn lemma_thrown_kind(
    world: World,
    levers: Seq<(String, Position)>,
    bits: Seq<bool>,
    count: nat,
    cell: Position,
)
    ensures
        thrown(world, levers, bits, count, cell).kind == at_cell(world, cell).kind,
    decreases count,
{
    if count > 0 {
        lemma_thrown_kind(world, levers, bits, (count - 1) as nat, cell);
    }
}

pub open spec fn no_lever_text(name: Seq<char>, cell: Position) -> Seq<char> {
    "input `"@ + name + "` is not a lever at ("@ + text::signed_decimal(cell.x as int) + (", "@
        + text::signed_decimal(cell.y as int) + ", "@ + text::signed_decimal(cell.z as int)
        + ")"@)
}

/// A copy of a world with its levers thrown; refused where an input is no lever.
pub fn with_levers(base: &World, levers: &Vec<(String, Position)>, bits: &Vec<bool>) -> (world:
    Result<World, String>)
    requires
        base.wf(),
        bits@.len() == levers@.len(),
        base.states().len() + levers@.len() < u32::MAX,
    ensures
        match world {
            Ok(set) => {
                &&& first_no_lever(*base, levers@, 0) is None
                &&& set.wf()
                &&& set.sizes() == base.sizes()
                &&& set.states().len() <= base.states().len() + levers@.len()
                &&& forall|cell: Position| #[trigger]
                    at_cell(set, cell) == thrown(*base, levers@, bits@, levers@.len(), cell)
            },
            Err(message) => first_no_lever(*base, levers@, 0) matches Some(at) && message@
                == no_lever_text(levers@[at].0@, levers@[at].1),
        },
{
    let mut world: World = base.duplicate();
    let mut at: usize = 0;
    proof {
        assert forall|cell: Position| #[trigger] at_cell(world, cell) == thrown(
            *base,
            levers@,
            bits@,
            0,
            cell,
        ) by {}
    }
    while at < levers.len()
        invariant
            base.wf(),
            bits@.len() == levers@.len(),
            base.states().len() + levers@.len() < u32::MAX,
            at <= levers@.len(),
            world.wf(),
            world.sizes() == base.sizes(),
            world.states().len() <= base.states().len() + at,
            first_no_lever(*base, levers@, 0) == first_no_lever(*base, levers@, at as int),
            forall|cell: Position| #[trigger]
                at_cell(world, cell) == thrown(*base, levers@, bits@, at as nat, cell),
        decreases levers@.len() - at,
    {
        let place: Position = levers[at].1;
        let ghost before = world;
        proof {
            lemma_thrown_kind(*base, levers@, bits@, at as nat, place);
            assert(at_cell(world, place) == thrown(*base, levers@, bits@, at as nat, place));
        }
        let mut state: BlockState = world.get(place.x, place.y, place.z).clone();
        if state.kind != BlockKind::Lever {
            let x: String = text::signed_text(place.x as i64);
            let y: String = text::signed_text(place.y as i64);
            let z: String = text::signed_text(place.z as i64);
            let tail: String = text::glue5(", ", y.as_str(), ", ", z.as_str(), ")");
            return Err(
                text::glue5(
                    "input `",
                    levers[at].0.as_str(),
                    "` is not a lever at (",
                    x.as_str(),
                    tail.as_str(),
                ),
            );
        }
        proof {
            assert(at_cell(world, place).kind == BlockKind::Lever);
            assert(world.holds(place.x as int, place.y as int, place.z as int));
        }
        state.lit = bits[at];
        let ghost next = state@;
        world.set(place.x, place.y, place.z, state);
        proof {
            assert forall|cell: Position| #[trigger] at_cell(world, cell) == thrown(
                *base,
                levers@,
                bits@,
                (at + 1) as nat,
                cell,
            ) by {
                assert(at_cell(before, cell) == thrown(*base, levers@, bits@, at as nat, cell));
                assert(next =~= (block::BlockView { lit: bits@[at as int], ..at_cell(
                    before,
                    place,
                ) }));
            }
        }
        at = at + 1;
    }
    Ok(world)
}

/// Every cell of a list is inside the world.
pub open spec fn all_inside(world: World, cells: Seq<Position>) -> bool {
    forall|i: int|
        0 <= i < cells.len() ==> world.holds(
            (#[trigger] cells[i]).x as int,
            cells[i].y as int,
            cells[i].z as int,
        )
}

/// Empties cells of a world, all but one.
fn without(world: &mut World, cells: &Vec<Position>, keep: Option<Position>)
    requires
        old(world).wf(),
        all_inside(*old(world), cells@),
        old(world).states().len() + cells@.len() < u32::MAX,
    ensures
        final(world).wf(),
        final(world).sizes() == old(world).sizes(),
        final(world).states().len() <= old(world).states().len() + cells@.len(),
        forall|cell: Position| #[trigger]
            at_cell(*final(world), cell) == (if cells@.contains(cell) && keep != Some(cell) {
                block::air()
            } else {
                at_cell(*old(world), cell)
            }),
{
    let mut at: usize = 0;
    while at < cells.len()
        invariant
            world.wf(),
            all_inside(*world, cells@),
            world.sizes() == old(world).sizes(),
            old(world).states().len() + cells@.len() < u32::MAX,
            world.states().len() <= old(world).states().len() + at,
            at <= cells@.len(),
            forall|cell: Position| #[trigger]
                at_cell(*world, cell) == (if cells@.take(at as int).contains(cell) && keep != Some(
                    cell,
                ) {
                    block::air()
                } else {
                    at_cell(*old(world), cell)
                }),
        decreases cells@.len() - at,
    {
        let place: Position = cells[at];
        let ghost before = *world;
        let spared: bool = match keep {
            Some(kept) => kept == place,
            None => false,
        };
        assert(world.holds(place.x as int, place.y as int, place.z as int));
        if !spared {
            world.set(place.x, place.y, place.z, BlockState::air());
        }
        proof {
            let fewer = cells@.take(at as int);
            let more = cells@.take(at + 1);
            assert(more =~= fewer.push(place));
            assert forall|cell: Position| #[trigger] at_cell(*world, cell) == (if more.contains(
                cell,
            ) && keep != Some(cell) {
                block::air()
            } else {
                at_cell(*old(world), cell)
            }) by {
                assert(at_cell(before, cell) == (if fewer.contains(cell) && keep != Some(cell) {
                    block::air()
                } else {
                    at_cell(*old(world), cell)
                }));
                if more.contains(cell) {
                    let i = choose|i: int| 0 <= i < more.len() && more[i] == cell;
                    if i < fewer.len() {
                        assert(fewer[i] == cell);
                    }
                }
                if fewer.contains(cell) {
                    let i = choose|i: int| 0 <= i < fewer.len() && fewer[i] == cell;
                    assert(more[i] == cell);
                }
                if cell == place {
                    assert(more[at as int] == cell);
                }
            }
        }
        at = at + 1;
    }
    assert(cells@.take(at as int) =~= cells@);
}

/// The world in which one origin is the only component that can emit: every
/// other source is gone, and a lever that stays is thrown.
pub fn isolation_world(base: &World, all_sources: &Vec<Position>, keep: Position) -> (world: World)
    requires
        base.wf(),
        all_inside(*base, all_sources@),
        base.states().len() + all_sources@.len() + 1 < u32::MAX,
    ensures
        world.wf(),
        world.sizes() == base.sizes(),
        forall|cell: Position| #[trigger]
            at_cell(world, cell) == (if cell == keep {
                if at_cell(*base, keep).kind == BlockKind::Lever {
                    (block::BlockView { lit: true, ..at_cell(*base, keep) })
                } else {
                    at_cell(*base, keep)
                }
            } else if all_sources@.contains(cell) {
                block::air()
            } else {
                at_cell(*base, cell)
            }),
{
    let mut world: World = base.duplicate();
    assert(forall|cell: Position| #[trigger] at_cell(world, cell) == at_cell(*base, cell));
    without(&mut world, all_sources, Some(keep));
    let ghost before = world;
    let mut state: BlockState = world.get(keep.x, keep.y, keep.z).clone();
    assert(state@ == at_cell(world, keep));
    if state.kind == BlockKind::Lever {
        assert(world.holds(keep.x as int, keep.y as int, keep.z as int));
        state.lit = true;
        let ghost next = state@;
        world.set(keep.x, keep.y, keep.z, state);
        assert(next =~= (block::BlockView { lit: true, ..at_cell(before, keep) }));
        assert(forall|cell: Position| #[trigger]
            at_cell(world, cell) == (if cell == keep {
                next
            } else {
                at_cell(before, cell)
            }));
    }
    world
}

/// The world at a vector without a group's origins. The levers are thrown first,
/// so that an origin that is a lever is gone too.
pub fn control_world(
    base: &World,
    levers: &Vec<(String, Position)>,
    bits: &Vec<bool>,
    origins: &Vec<Position>,
) -> (world: Result<World, String>)
    requires
        base.wf(),
        bits@.len() == levers@.len(),
        all_inside(*base, origins@),
        base.states().len() + levers@.len() + origins@.len() < u32::MAX,
    ensures
        match world {
            Ok(set) => {
                &&& first_no_lever(*base, levers@, 0) is None
                &&& set.wf()
                &&& set.sizes() == base.sizes()
                &&& forall|cell: Position| #[trigger]
                    at_cell(set, cell) == (if origins@.contains(cell) {
                        block::air()
                    } else {
                        thrown(*base, levers@, bits@, levers@.len(), cell)
                    })
            },
            Err(message) => first_no_lever(*base, levers@, 0) matches Some(at) && message@
                == no_lever_text(levers@[at].0@, levers@[at].1),
        },
{
    match with_levers(base, levers, bits) {
        Err(message) => Err(message),
        Ok(set) => {
            let mut world: World = set;
            without(&mut world, origins, None);
            Ok(world)
        },
    }
}

/// The sources among the first `count` inputs: the lever of each.
pub open spec fn lever_sources(
    list: Netlist,
    positions: Seq<(String, Position)>,
    count: nat,
) -> Set<Position>
    decreases count,
{
    if count == 0 {
        Set::empty()
    } else {
        let before = lever_sources(list, positions, (count - 1) as nat);
        match circuit::position_of(positions, list.inputs@[count - 1]@) {
            Some(cell) => before.insert(cell),
            None => before,
        }
    }
}

/// The sources among the first `count` gates: the torch of each that is no merge.
pub open spec fn gate_sources(
    list: Netlist,
    positions: Seq<(String, Position)>,
    count: nat,
) -> Set<Position>
    decreases count,
{
    if count == 0 {
        Set::empty()
    } else {
        let before = gate_sources(list, positions, (count - 1) as nat);
        let gate = list.gates@[count - 1];
        match circuit::position_of(positions, gate.output@) {
            Some(cell) => if gate.kind is Or {
                before
            } else {
                before.insert(cell)
            },
            None => before,
        }
    }
}

/// Every component that can emit, in order.
pub fn every_source(
    list: &Netlist,
    gate_output_positions: &Vec<(String, Position)>,
    input_positions: &Vec<(String, Position)>,
) -> (sources: Vec<Position>)
    ensures
        cells::lists(
            sources@,
            lever_sources(*list, input_positions@, list.inputs@.len()).union(
                gate_sources(*list, gate_output_positions@, list.gates@.len()),
            ),
        ),
{
    let mut sources: Vec<Position> = Vec::new();
    let mut at: usize = 0;
    assert(sources@.to_set() =~= Set::empty());
    while at < list.inputs.len()
        invariant
            at <= list.inputs@.len(),
            cells::ascending(sources@),
            sources@.to_set() == lever_sources(*list, input_positions@, at as nat),
        decreases list.inputs@.len() - at,
    {
        if let Some(cell) = circuit::find_position(input_positions, list.inputs[at].as_str()) {
            cells::insert_cell(&mut sources, cell);
        }
        at = at + 1;
    }
    let ghost levers = lever_sources(*list, input_positions@, list.inputs@.len());
    assert(levers.union(gate_sources(*list, gate_output_positions@, 0)) =~= levers);
    let mut g: usize = 0;
    while g < list.gates.len()
        invariant
            g <= list.gates@.len(),
            cells::ascending(sources@),
            sources@.to_set() == levers.union(
                gate_sources(*list, gate_output_positions@, g as nat),
            ),
        decreases list.gates@.len() - g,
    {
        let ghost before = gate_sources(*list, gate_output_positions@, g as nat);
        if !list.gates[g].is_merge() {
            if let Some(cell) = circuit::find_position(
                gate_output_positions,
                list.gates[g].output.as_str(),
            ) {
                cells::insert_cell(&mut sources, cell);
                assert(levers.union(before).insert(cell) =~= levers.union(before.insert(cell)));
            }
        }
        g = g + 1;
    }
    sources
}

/// The name of a net: that of the input that drives it, or of the output of a gate.
pub fn net_name_for(list: &Netlist, nets: &Vec<Net>, index: usize) -> (name: String)
    requires
        index < nets@.len(),
        match nets@[index as int].source {
            Source::Lever(i) => i < list.inputs@.len(),
            Source::Gate(g) => g < list.gates@.len(),
        },
    ensures
        name@ == routing_stats::source_name(*list, nets@[index as int].source),
{
    match nets[index].source {
        Source::Lever(i) => list.inputs[i].as_str().to_owned(),
        Source::Gate(g) => list.gates[g].output.as_str().to_owned(),
    }
}

/// The levers of a circuit, in the order of its inputs.
pub fn lever_positions(list: &Netlist, input_positions: &Vec<(String, Position)>) -> (levers: Vec<
    (String, Position),
>)
    requires
        forall|i: int|
            0 <= i < list.inputs@.len() ==> circuit::position_of(
                input_positions@,
                (#[trigger] list.inputs@[i])@,
            ) is Some,
    ensures
        levers@.len() == list.inputs@.len(),
        forall|i: int|
            0 <= i < levers@.len() ==> (#[trigger] levers@[i]).0@ == list.inputs@[i]@ && Some(
                levers@[i].1,
            ) == circuit::position_of(input_positions@, list.inputs@[i]@),
{
    let mut levers: Vec<(String, Position)> = Vec::new();
    let mut at: usize = 0;
    while at < list.inputs.len()
        invariant
            at <= list.inputs@.len(),
            levers@.len() == at,
            forall|i: int|
                0 <= i < list.inputs@.len() ==> circuit::position_of(
                    input_positions@,
                    (#[trigger] list.inputs@[i])@,
                ) is Some,
            forall|i: int|
                0 <= i < levers@.len() ==> (#[trigger] levers@[i]).0@ == list.inputs@[i]@ && Some(
                    levers@[i].1,
                ) == circuit::position_of(input_positions@, list.inputs@[i]@),
        decreases list.inputs@.len() - at,
    {
        let name: &str = list.inputs[at].as_str();
        if let Some(cell) = circuit::find_position(input_positions, name) {
            levers.push((name.to_owned(), cell));
        }
        at = at + 1;
    }
    levers
}

/// One origin alone in the world, once that world has settled.
pub struct OriginIsolation {
    pub origin: Position,
    /// Whether it sends out power there.
    pub emits: bool,
    pub settled: Settled,
}

impl OriginIsolation {
    pub open spec fn wf(self) -> bool {
        self.settled.wf() && self.emits == (carries(self.settled.power_at(self.origin)) > 0)
    }

    pub fn new(origin: Position, settled: Settled) -> (isolation: OriginIsolation)
        requires
            settled.wf(),
        ensures
            isolation.wf(),
            isolation.origin == origin,
            isolation.settled == settled,
    {
        let emits: bool = observed(&settled, origin) > 0;
        OriginIsolation { origin, emits, settled }
    }
}

pub open spec fn isolations_ok(isolations: Seq<OriginIsolation>) -> bool {
    forall|i: int| 0 <= i < isolations.len() ==> (#[trigger] isolations[i]).wf()
}

/// The most that one of the first `count` origins delivers to a cell, alone and
/// emitting, if any delivers anything; of equals, the last.
pub open spec fn best_alone(
    isolations: Seq<OriginIsolation>,
    cell: Position,
    count: nat,
) -> Option<(Position, u8)>
    decreases count,
{
    if count == 0 {
        None
    } else {
        let before = best_alone(isolations, cell, (count - 1) as nat);
        let one = isolations[count - 1];
        let value = carries(one.settled.power_at(cell));
        if !one.emits || value == 0 {
            before
        } else {
            match before {
                Some((origin, most)) => if value >= most {
                    Some((one.origin, value))
                } else {
                    before
                },
                None => Some((one.origin, value)),
            }
        }
    }
}

fn best_solo(isolations: &Vec<OriginIsolation>, cell: Position) -> (best: Option<(Position, u8)>)
    requires
        isolations_ok(isolations@),
    ensures
        best == best_alone(isolations@, cell, isolations@.len()),
{
    let mut best: Option<(Position, u8)> = None;
    let mut at: usize = 0;
    while at < isolations.len()
        invariant
            isolations_ok(isolations@),
            at <= isolations@.len(),
            best == best_alone(isolations@, cell, at as nat),
        decreases isolations@.len() - at,
    {
        assert(isolations@[at as int].wf());
        if isolations[at].emits {
            let value: u8 = observed(&isolations[at].settled, cell);
            if value > 0 {
                let better: bool = match best {
                    Some((_, most)) => value >= most,
                    None => true,
                };
                if better {
                    best = Some((isolations[at].origin, value));
                }
            }
        }
        at = at + 1;
    }
    best
}

/// A group of nets that merge with each other, and what walking from its origins
/// recorded.
#[derive(Debug)]
pub struct GroupWalk {
    pub root: usize,
    /// The nets of the group, by number.
    pub nets: Vec<usize>,
    /// The cells of the group, in order.
    pub cells: Vec<Position>,
    pub origins: Vec<Position>,
    /// What the walk recorded, cell by cell.
    pub strength: Vec<(Position, u8)>,
}

/// What the walk recorded at a cell, from one entry on; zero where nothing.
pub open spec fn recorded_from(strength: Seq<(Position, u8)>, cell: Position, from: int) -> u8
    decreases strength.len() - from,
{
    if from < 0 || from >= strength.len() {
        0
    } else if strength[from].0 == cell {
        strength[from].1
    } else {
        recorded_from(strength, cell, from + 1)
    }
}

pub open spec fn recorded_at(strength: Seq<(Position, u8)>, cell: Position) -> u8 {
    recorded_from(strength, cell, 0)
}

fn find_strength(strength: &Vec<(Position, u8)>, cell: Position) -> (value: u8)
    ensures
        value == recorded_at(strength@, cell),
{
    let mut at: usize = 0;
    while at < strength.len()
        invariant
            at <= strength@.len(),
            recorded_at(strength@, cell) == recorded_from(strength@, cell, at as int),
        decreases strength@.len() - at,
    {
        if strength[at].0 == cell {
            return strength[at].1;
        }
        at = at + 1;
    }
    0
}

/// A merge drives the net, and so nothing that emits does.
pub open spec fn merge_sourced(list: Netlist, net: Net) -> bool {
    match net.source {
        Source::Gate(g) => list.gates@[g as int].kind is Or,
        Source::Lever(_) => false,
    }
}

/// Where what drives a net stands.
pub open spec fn source_cell(
    list: Netlist,
    gate_output_positions: Seq<(String, Position)>,
    input_positions: Seq<(String, Position)>,
    source: Source,
) -> Option<Position> {
    match source {
        Source::Lever(i) => circuit::position_of(input_positions, list.inputs@[i as int]@),
        Source::Gate(g) => circuit::position_of(
            gate_output_positions,
            list.gates@[g as int].output@,
        ),
    }
}

/// The nets of a group, among the first `count`.
pub open spec fn group_nets(roots: Seq<usize>, root: usize, count: nat) -> Seq<usize>
    decreases count,
{
    if count == 0 {
        seq![]
    } else if roots[count - 1] == root {
        group_nets(roots, root, (count - 1) as nat).push((count - 1) as usize)
    } else {
        group_nets(roots, root, (count - 1) as nat)
    }
}

/// The origins of a group, among the first `count` nets: one for each net that no
/// merge drives.
pub open spec fn group_origins(
    list: Netlist,
    nets: Seq<Net>,
    roots: Seq<usize>,
    gate_output_positions: Seq<(String, Position)>,
    input_positions: Seq<(String, Position)>,
    root: usize,
    count: nat,
) -> Seq<Position>
    decreases count,
{
    if count == 0 {
        seq![]
    } else {
        let before = group_origins(
            list,
            nets,
            roots,
            gate_output_positions,
            input_positions,
            root,
            (count - 1) as nat,
        );
        let net = nets[count - 1];
        if roots[count - 1] == root && !merge_sourced(list, net) {
            before.push(
                source_cell(list, gate_output_positions, input_positions, net.source)->0,
            )
        } else {
            before
        }
    }
}

/// The cells of a group: those that its nets own, and those of its merges.
pub open spec fn group_cells(
    reservation: Seq<(Position, usize)>,
    bodies: Seq<(Position, usize)>,
    roots: Seq<usize>,
    root: usize,
) -> Set<Position> {
    Set::new(
        |cell: Position|
            (exists|i: int|
                0 <= i < reservation.len() && (#[trigger] reservation[i]).0 == cell
                    && roots[reservation[i].1 as int] == root) || (exists|i: int|
                0 <= i < bodies.len() && #[trigger] bodies[i] == (cell, root)),
    )
}

/// There is a group with this root.
pub open spec fn is_root(bodies: Seq<(Position, usize)>, roots: Seq<usize>, root: usize) -> bool {
    roots.contains(root) || exists|i: int|
        0 <= i < bodies.len() && (#[trigger] bodies[i]).1 == root
}

/// The indices are in range, and whatever drives a net stands somewhere.
pub open spec fn nets_ok(
    list: Netlist,
    nets: Seq<Net>,
    roots: Seq<usize>,
    reservation: Seq<(Position, usize)>,
    gate_output_positions: Seq<(String, Position)>,
    input_positions: Seq<(String, Position)>,
) -> bool {
    &&& roots.len() == nets.len()
    &&& forall|i: int|
        0 <= i < reservation.len() ==> (#[trigger] reservation[i]).1 < roots.len()
    &&& forall|n: int|
        0 <= n < nets.len() ==> match (#[trigger] nets[n]).source {
            Source::Lever(i) => i < list.inputs@.len(),
            Source::Gate(g) => g < list.gates@.len(),
        } && (merge_sourced(list, nets[n]) || source_cell(
            list,
            gate_output_positions,
            input_positions,
            nets[n].source,
        ) is Some)
}

impl GroupWalk {
    /// The group is that of a root, and nothing has been recorded yet.
    pub open spec fn is_group(
        self,
        list: Netlist,
        nets: Seq<Net>,
        roots: Seq<usize>,
        reservation: Seq<(Position, usize)>,
        bodies: Seq<(Position, usize)>,
        gate_output_positions: Seq<(String, Position)>,
        input_positions: Seq<(String, Position)>,
    ) -> bool {
        &&& is_root(bodies, roots, self.root)
        &&& self.nets@ == group_nets(roots, self.root, nets.len())
        &&& cells::lists(self.cells@, group_cells(reservation, bodies, roots, self.root))
        &&& self.origins@ == group_origins(
            list,
            nets,
            roots,
            gate_output_positions,
            input_positions,
            self.root,
            nets.len(),
        )
        &&& self.strength@.len() == 0
    }
}

fn group_of(
    list: &Netlist,
    nets: &Vec<Net>,
    roots: &Vec<usize>,
    reservation: &Vec<(Position, usize)>,
    bodies: &Vec<(Position, usize)>,
    gate_output_positions: &Vec<(String, Position)>,
    input_positions: &Vec<(String, Position)>,
    root: usize,
) -> (group: GroupWalk)
    requires
        nets_ok(
            *list,
            nets@,
            roots@,
            reservation@,
            gate_output_positions@,
            input_positions@,
        ),
        is_root(bodies@, roots@, root),
    ensures
        group.root == root,
        group.is_group(
            *list,
            nets@,
            roots@,
            reservation@,
            bodies@,
            gate_output_positions@,
            input_positions@,
        ),
{
    let mut members: Vec<usize> = Vec::new();
    let mut origins: Vec<Position> = Vec::new();
    let mut n: usize = 0;
    while n < nets.len()
        invariant
            nets_ok(
                *list,
                nets@,
                roots@,
                reservation@,
                gate_output_positions@,
                input_positions@,
            ),
            n <= nets@.len(),
            members@ == group_nets(roots@, root, n as nat),
            origins@ == group_origins(
                *list,
                nets@,
                roots@,
                gate_output_positions@,
                input_positions@,
                root,
                n as nat,
            ),
        decreases nets@.len() - n,
    {
        if roots[n] == root {
            members.push(n);
            assert(match nets@[n as int].source {
                Source::Lever(i) => i < list.inputs@.len(),
                Source::Gate(g) => g < list.gates@.len(),
            });
            let (merges, found) = match nets[n].source {
                Source::Lever(i) => (
                    false,
                    circuit::find_position(input_positions, list.inputs[i].as_str()),
                ),
                Source::Gate(g) => (
                    list.gates[g].is_merge(),
                    circuit::find_position(
                        gate_output_positions,
                        list.gates[g].output.as_str(),
                    ),
                ),
            };
            if !merges {
                if let Some(cell) = found {
                    origins.push(cell);
                }
            }
        }
        n = n + 1;
    }
    let own: Vec<Position> = collect_cells(reservation, bodies, roots, root);
    GroupWalk { root, nets: members, cells: own, origins, strength: Vec::new() }
}

fn collect_cells(
    reservation: &Vec<(Position, usize)>,
    bodies: &Vec<(Position, usize)>,
    roots: &Vec<usize>,
    root: usize,
) -> (own: Vec<Position>)
    requires
        forall|i: int|
            0 <= i < reservation@.len() ==> (#[trigger] reservation@[i]).1 < roots@.len(),
    ensures
        cells::lists(own@, group_cells(reservation@, bodies@, roots@, root)),
{
    let mut own: Vec<Position> = Vec::new();
    let ghost no_bodies: Seq<(Position, usize)> = seq![];
    let mut at: usize = 0;
    assert(own@.to_set() =~= group_cells(reservation@.take(0), no_bodies, roots@, root));
    while at < reservation.len()
        invariant
            forall|i: int|
                0 <= i < reservation@.len() ==> (#[trigger] reservation@[i]).1 < roots@.len(),
            no_bodies.len() == 0,
            at <= reservation@.len(),
            cells::ascending(own@),
            own@.to_set() == group_cells(
                reservation@.take(at as int),
                no_bodies,
                roots@,
                root,
            ),
        decreases reservation@.len() - at,
    {
        let (cell, owner) = reservation[at];
        assert(reservation@[at as int].1 < roots@.len());
        let ghost before = group_cells(reservation@.take(at as int), no_bodies, roots@, root);
        let ghost after = group_cells(reservation@.take(at + 1), no_bodies, roots@, root);
        proof {
            let fewer = reservation@.take(at as int);
            let more = reservation@.take(at + 1);
            assert forall|other: Position| after.contains(other) == (before.contains(other) || (
            other == cell && roots@[owner as int] == root)) by {
                if before.contains(other) {
                    let i = choose|i: int|
                        0 <= i < fewer.len() && (#[trigger] fewer[i]).0 == other
                            && roots@[fewer[i].1 as int] == root;
                    assert(more[i] == fewer[i]);
                }
                if after.contains(other) {
                    let i = choose|i: int|
                        0 <= i < more.len() && (#[trigger] more[i]).0 == other
                            && roots@[more[i].1 as int] == root;
                    if i < fewer.len() {
                        assert(fewer[i] == more[i]);
                    }
                }
                if other == cell && roots@[owner as int] == root {
                    assert(more[at as int].0 == other);
                }
            }
        }
        if roots[owner] == root {
            cells::insert_cell(&mut own, cell);
            assert(after =~= before.insert(cell));
        } else {
            assert(after =~= before);
        }
        at = at + 1;
    }
    assert(reservation@.take(at as int) =~= reservation@);
    assert(group_cells(reservation@, no_bodies, roots@, root) =~= group_cells(
        reservation@,
        bodies@.take(0),
        roots@,
        root,
    ));
    let mut k: usize = 0;
    while k < bodies.len()
        invariant
            k <= bodies@.len(),
            cells::ascending(own@),
            own@.to_set() == group_cells(
                reservation@,
                bodies@.take(k as int),
                roots@,
                root,
            ),
        decreases bodies@.len() - k,
    {
        let (cell, owner) = bodies[k];
        let ghost before = group_cells(reservation@, bodies@.take(k as int), roots@, root);
        let ghost after = group_cells(reservation@, bodies@.take(k + 1), roots@, root);
        proof {
            let fewer = bodies@.take(k as int);
            let more = bodies@.take(k + 1);
            assert forall|other: Position| after.contains(other) == (before.contains(other) || (
            other == cell && owner == root)) by {
                if exists|i: int| 0 <= i < fewer.len() && #[trigger] fewer[i] == (other, root) {
                    let i = choose|i: int|
                        0 <= i < fewer.len() && #[trigger] fewer[i] == (other, root);
                    assert(more[i] == (other, root));
                }
                if exists|i: int| 0 <= i < more.len() && #[trigger] more[i] == (other, root) {
                    let i = choose|i: int|
                        0 <= i < more.len() && #[trigger] more[i] == (other, root);
                    if i < fewer.len() {
                        assert(fewer[i] == (other, root));
                    }
                }
                if other == cell && owner == root {
                    assert(more[k as int] == (other, root));
                }
            }
        }
        if owner == root {
            cells::insert_cell(&mut own, cell);
            assert(after =~= before.insert(cell));
        } else {
            assert(after =~= before);
        }
        k = k + 1;
    }
    assert(bodies@.take(k as int) =~= bodies@);
    own
}

/// The smallest root above a bound, if there is one.
fn next_root(roots: &Vec<usize>, bodies: &Vec<(Position, usize)>, above: Option<usize>) -> (next:
    Option<usize>)
    ensures
        match next {
            Some(root) => is_root(bodies@, roots@, root) && beyond(root, above) && forall|
                other: usize,
            | #[trigger]
                is_root(bodies@, roots@, other) && beyond(other, above) ==> root <= other,
            None => forall|other: usize| #[trigger]
                is_root(bodies@, roots@, other) ==> !beyond(other, above),
        },
{
    let mut next: Option<usize> = None;
    let mut at: usize = 0;
    while at < roots.len()
        invariant
            at <= roots@.len(),
            match next {
                Some(root) => roots@.contains(root) && beyond(root, above) && forall|i: int|
                    0 <= i < at && beyond(#[trigger] roots@[i], above) ==> root <= roots@[i],
                None => forall|i: int| 0 <= i < at ==> !beyond(#[trigger] roots@[i], above),
            },
        decreases roots@.len() - at,
    {
        let root: usize = roots[at];
        if is_beyond(root, above) {
            let smaller: bool = match next {
                Some(best) => root < best,
                None => true,
            };
            if smaller {
                assert(roots@[at as int] == root);
                next = Some(root);
            }
        }
        at = at + 1;
    }
    let mut k: usize = 0;
    while k < bodies.len()
        invariant
            k <= bodies@.len(),
            match next {
                Some(root) => is_root(bodies@, roots@, root) && beyond(root, above) && (forall|
                    i: int,
                |
                    0 <= i < roots@.len() && beyond(#[trigger] roots@[i], above) ==> root
                        <= roots@[i]) && (forall|i: int|
                    0 <= i < k && beyond((#[trigger] bodies@[i]).1, above) ==> root
                        <= bodies@[i].1),
                None => (forall|i: int|
                    0 <= i < roots@.len() ==> !beyond(#[trigger] roots@[i], above)) && (forall|
                    i: int,
                |
                    0 <= i < k ==> !beyond((#[trigger] bodies@[i]).1, above)),
            },
        decreases bodies@.len() - k,
    {
        let root: usize = bodies[k].1;
        if is_beyond(root, above) {
            let smaller: bool = match next {
                Some(best) => root < best,
                None => true,
            };
            if smaller {
                assert(bodies@[k as int].1 == root);
                next = Some(root);
            }
        }
        k = k + 1;
    }
    next
}

/// A root above a bound; without a bound, every root is.
pub open spec fn beyond(root: usize, above: Option<usize>) -> bool {
    match above {
        Some(bound) => root > bound,
        None => true,
    }
}

fn is_beyond(root: usize, above: Option<usize>) -> (further: bool)
    ensures
        further == beyond(root, above),
{
    match above {
        Some(bound) => root > bound,
        None => true,
    }
}

/// The groups stand by their roots, none twice, and none is left out below or at
/// a bound.
spec fn groups_up_to(
    walks: Seq<GroupWalk>,
    bodies: Seq<(Position, usize)>,
    roots: Seq<usize>,
    last: Option<usize>,
) -> bool {
    &&& forall|i: int, j: int|
        0 <= i < j < walks.len() ==> (#[trigger] walks[i]).root < (#[trigger] walks[j]).root
    &&& match last {
        Some(bound) => walks.len() > 0 && walks.last().root == bound,
        None => walks.len() == 0,
    }
    &&& forall|root: usize| #[trigger]
        is_root(bodies, roots, root) && !beyond(root, last) ==> exists|i: int|
            0 <= i < walks.len() && (#[trigger] walks[i]).root == root
}

/// The groups of merging nets, by their roots. What the walk records is left to
/// whoever walks.
pub fn walk_by_group(
    list: &Netlist,
    nets: &Vec<Net>,
    roots: &Vec<usize>,
    reservation: &Vec<(Position, usize)>,
    bodies: &Vec<(Position, usize)>,
    gate_output_positions: &Vec<(String, Position)>,
    input_positions: &Vec<(String, Position)>,
) -> (walks: Vec<GroupWalk>)
    requires
        nets_ok(
            *list,
            nets@,
            roots@,
            reservation@,
            gate_output_positions@,
            input_positions@,
        ),
    ensures
        forall|i: int, j: int|
            0 <= i < j < walks@.len() ==> (#[trigger] walks@[i]).root < (
            #[trigger] walks@[j]).root,
        forall|root: usize| #[trigger]
            is_root(bodies@, roots@, root) ==> exists|i: int|
                0 <= i < walks@.len() && (#[trigger] walks@[i]).root == root,
        forall|i: int|
            0 <= i < walks@.len() ==> (#[trigger] walks@[i]).is_group(
                *list,
                nets@,
                roots@,
                reservation@,
                bodies@,
                gate_output_positions@,
                input_positions@,
            ),
{
    let mut walks: Vec<GroupWalk> = Vec::new();
    let mut last: Option<usize> = None;
    let mut next: Option<usize> = next_root(roots, bodies, last);
    while next.is_some()
        invariant
            nets_ok(
                *list,
                nets@,
                roots@,
                reservation@,
                gate_output_positions@,
                input_positions@,
            ),
            groups_up_to(walks@, bodies@, roots@, last),
            forall|i: int|
                0 <= i < walks@.len() ==> (#[trigger] walks@[i]).is_group(
                    *list,
                    nets@,
                    roots@,
                    reservation@,
                    bodies@,
                    gate_output_positions@,
                    input_positions@,
                ),
            match next {
                Some(root) => is_root(bodies@, roots@, root) && beyond(root, last) && forall|
                    other: usize,
                | #[trigger]
                    is_root(bodies@, roots@, other) && beyond(other, last) ==> root <= other,
                None => forall|other: usize| #[trigger]
                    is_root(bodies@, roots@, other) ==> !beyond(other, last),
            },
        decreases
                (match last {
                    Some(bound) => usize::MAX - bound,
                    None => usize::MAX + 1,
                }),
    {
        let root: usize = match next {
            Some(found) => found,
            None => 0,
        };
        let group: GroupWalk = group_of(
            list,
            nets,
            roots,
            reservation,
            bodies,
            gate_output_positions,
            input_positions,
            root,
        );
        let ghost before = walks@;
        walks.push(group);
        proof {
            let now = walks@;
            assert forall|i: int, j: int| 0 <= i < j < now.len() implies (#[trigger] now[i]).root
                < (#[trigger] now[j]).root by {
                if j < before.len() {
                    assert(before[i].root < before[j].root);
                } else if i < before.len() - 1 {
                    assert(before[i].root < before[before.len() - 1].root);
                }
            }
            assert forall|other: usize| #[trigger]
                is_root(bodies@, roots@, other) && !beyond(other, Some(root)) implies exists|
                i: int,
            | 0 <= i < now.len() && (#[trigger] now[i]).root == other by {
                if beyond(other, last) {
                    assert(now[now.len() - 1].root == other);
                } else {
                    let i = choose|i: int|
                        0 <= i < before.len() && (#[trigger] before[i]).root == other;
                    assert(now[i].root == other);
                }
            }
        }
        last = Some(root);
        next = next_root(roots, bodies, last);
    }
    walks
}

/// Every sink is a gate.
pub open spec fn sinks_in_range(list: Netlist, nets: Seq<Net>, supports: Seq<Option<Position>>) -> bool {
    &&& supports.len() == list.gates@.len()
    &&& forall|n: int, slot: int, k: int|
        0 <= n < nets.len() && 0 <= slot < nets[n].sinks@.len() && 0 <= k
            < nets[n].sinks@[slot]@.len() ==> (#[trigger] nets[n].sinks@[slot]@[k]).0
            < list.gates@.len()
}

/// The block that the judge reads at a sink, if the sink is no merge and its
/// torch is mounted on something.
pub open spec fn read_block(
    list: Netlist,
    supports: Seq<Option<Position>>,
    gate: usize,
) -> Option<Position> {
    if list.gates@[gate as int].kind is Or {
        None
    } else {
        supports[gate as int]
    }
}

/// The judge reads a cell on account of a group.
pub open spec fn is_read(
    list: Netlist,
    nets: Seq<Net>,
    roots: Seq<usize>,
    supports: Seq<Option<Position>>,
    root: usize,
    cell: Position,
) -> bool {
    exists|n: int, slot: int, k: int|
        0 <= n < nets.len() && roots[n] == root && 0 <= slot < nets[n].sinks@.len() && 0 <= k
            < nets[n].sinks@[slot]@.len() && read_block(
            list,
            supports,
            (#[trigger] nets[n].sinks@[slot]@[k]).0,
        ) == Some(cell)
}

/// What the judge has read on account of a group before a place in the list of
/// sinks.
spec fn read_before(
    list: Netlist,
    nets: Seq<Net>,
    roots: Seq<usize>,
    supports: Seq<Option<Position>>,
    root: usize,
    n: int,
    slot: int,
    k: int,
) -> Set<Position> {
    Set::new(
        |cell: Position|
            exists|i: int, j: int, m: int|
                0 <= i < nets.len() && roots[i] == root && 0 <= j < nets[i].sinks@.len() && 0 <= m
                    < nets[i].sinks@[j]@.len() && (i < n || (i == n && (j < slot || (j == slot && m
                    < k)))) && read_block(
                    list,
                    supports,
                    (#[trigger] nets[i].sinks@[j]@[m]).0,
                ) == Some(cell),
    )
}

/// Every block that the judge reads on account of a group, in order.
pub fn sink_supports(
    list: &Netlist,
    nets: &Vec<Net>,
    roots: &Vec<usize>,
    supports: &Vec<Option<Position>>,
    root: usize,
) -> (sinks: Vec<Position>)
    requires
        roots@.len() == nets@.len(),
        sinks_in_range(*list, nets@, supports@),
    ensures
        cells::ascending(sinks@),
        forall|cell: Position| #[trigger]
            sinks@.contains(cell) == is_read(*list, nets@, roots@, supports@, root, cell),
{
    let mut sinks: Vec<Position> = Vec::new();
    let mut n: usize = 0;
    assert(sinks@.to_set() =~= read_before(*list, nets@, roots@, supports@, root, 0, 0, 0));
    while n < nets.len()
        invariant
            roots@.len() == nets@.len(),
            sinks_in_range(*list, nets@, supports@),
            n <= nets@.len(),
            cells::ascending(sinks@),
            sinks@.to_set() == read_before(
                *list,
                nets@,
                roots@,
                supports@,
                root,
                n as int,
                0,
                0,
            ),
        decreases nets@.len() - n,
    {
        if roots[n] == root {
            let mut slot: usize = 0;
            while slot < nets[n].sinks.len()
                invariant
                    roots@.len() == nets@.len(),
                    sinks_in_range(*list, nets@, supports@),
                    n < nets@.len(),
                    roots@[n as int] == root,
                    slot <= nets@[n as int].sinks@.len(),
                    cells::ascending(sinks@),
                    sinks@.to_set() == read_before(
                        *list,
                        nets@,
                        roots@,
                        supports@,
                        root,
                        n as int,
                        slot as int,
                        0,
                    ),
                decreases nets@[n as int].sinks@.len() - slot,
            {
                let mut k: usize = 0;
                while k < nets[n].sinks[slot].len()
                    invariant
                        roots@.len() == nets@.len(),
                        sinks_in_range(*list, nets@, supports@),
                        n < nets@.len(),
                        roots@[n as int] == root,
                        slot < nets@[n as int].sinks@.len(),
                        k <= nets@[n as int].sinks@[slot as int]@.len(),
                        cells::ascending(sinks@),
                        sinks@.to_set() == read_before(
                            *list,
                            nets@,
                            roots@,
                            supports@,
                            root,
                            n as int,
                            slot as int,
                            k as int,
                        ),
                    decreases nets@[n as int].sinks@[slot as int]@.len() - k,
                {
                    let gate: usize = nets[n].sinks[slot][k].0;
                    let ghost before = read_before(
                        *list,
                        nets@,
                        roots@,
                        supports@,
                        root,
                        n as int,
                        slot as int,
                        k as int,
                    );
                    let ghost after = read_before(
                        *list,
                        nets@,
                        roots@,
                        supports@,
                        root,
                        n as int,
                        slot as int,
                        k + 1,
                    );
                    let ghost found = read_block(*list, supports@, gate);
                    proof {
                        assert(nets@[n as int].sinks@[slot as int]@[k as int].0
                            < list.gates@.len());
                        assert forall|cell: Position| after.contains(cell) == (before.contains(cell)
                            || found == Some(cell)) by {
                            if found == Some(cell) {
                                assert(read_block(
                                    *list,
                                    supports@,
                                    nets@[n as int].sinks@[slot as int]@[k as int].0,
                                ) == Some(cell));
                            }
                        }
                    }
                    if !list.gates[gate].is_merge() {
                        if let Some(support) = supports[gate] {
                            cells::insert_cell(&mut sinks, support);
                            assert(after =~= before.insert(support));
                        } else {
                            assert(after =~= before);
                        }
                    } else {
                        assert(after =~= before);
                    }
                    k = k + 1;
                }
                assert(read_before(
                    *list,
                    nets@,
                    roots@,
                    supports@,
                    root,
                    n as int,
                    slot as int,
                    k as int,
                ) =~= read_before(
                    *list,
                    nets@,
                    roots@,
                    supports@,
                    root,
                    n as int,
                    slot + 1,
                    0,
                ));
                slot = slot + 1;
            }
            assert(read_before(
                *list,
                nets@,
                roots@,
                supports@,
                root,
                n as int,
                slot as int,
                0,
            ) =~= read_before(*list, nets@, roots@, supports@, root, n + 1, 0, 0));
        } else {
            assert(read_before(
                *list,
                nets@,
                roots@,
                supports@,
                root,
                n as int,
                0,
                0,
            ) =~= read_before(*list, nets@, roots@, supports@, root, n + 1, 0, 0));
        }
        n = n + 1;
    }
    proof {
        assert forall|cell: Position| #[trigger] sinks@.contains(cell) == is_read(
            *list,
            nets@,
            roots@,
            supports@,
            root,
            cell,
        ) by {
            let every = read_before(*list, nets@, roots@, supports@, root, n as int, 0, 0);
            assert(sinks@.to_set().contains(cell) == sinks@.contains(cell));
            assert(sinks@.to_set().contains(cell) == every.contains(cell));
            if is_read(*list, nets@, roots@, supports@, root, cell) {
                let (i, j, m) = choose|i: int, j: int, m: int|
                    0 <= i < nets@.len() && roots@[i] == root && 0 <= j < nets@[i].sinks@.len()
                        && 0 <= m < nets@[i].sinks@[j]@.len() && read_block(
                        *list,
                        supports@,
                        (#[trigger] nets@[i].sinks@[j]@[m]).0,
                    ) == Some(cell);
                assert(read_block(*list, supports@, nets@[i].sinks@[j]@[m].0) == Some(cell));
            }
        }
    }
    sinks
}

/// A sink that a net does not reach.
#[derive(Debug, Clone, Copy, PartialEq, Eq, Structural)]
pub struct SignalViolation {
    /// The net, by number.
    pub net: usize,
    /// Which gate, by number.
    pub gate: usize,
    /// The block that its torch is mounted on.
    pub support: Position,
}

/// What is wrong with a sink, given what was recorded for the net's group.
pub open spec fn sink_violation(
    list: Netlist,
    supports: Seq<Option<Position>>,
    strength: Seq<(Position, u8)>,
    net: usize,
    gate: usize,
) -> Option<SignalViolation> {
    match read_block(list, supports, gate) {
        Some(support) => if recorded_at(strength, support) == 0 {
            Some(SignalViolation { net, gate, support })
        } else {
            None
        },
        None => None,
    }
}

/// What is wrong with the first sink of a slot, from one on, that something is
/// wrong with.
pub open spec fn slot_violation(
    list: Netlist,
    supports: Seq<Option<Position>>,
    strength: Seq<(Position, u8)>,
    net: usize,
    sinks: Seq<(usize, usize)>,
    from: int,
) -> Option<SignalViolation>
    decreases sinks.len() - from,
{
    if from < 0 || from >= sinks.len() {
        None
    } else {
        match sink_violation(list, supports, strength, net, sinks[from].0) {
            Some(violation) => Some(violation),
            None => slot_violation(list, supports, strength, net, sinks, from + 1),
        }
    }
}

pub open spec fn net_violation(
    list: Netlist,
    supports: Seq<Option<Position>>,
    strength: Seq<(Position, u8)>,
    net: usize,
    slots: Seq<Vec<(usize, usize)>>,
    from: int,
) -> Option<SignalViolation>
    decreases slots.len() - from,
{
    if from < 0 || from >= slots.len() {
        None
    } else {
        match slot_violation(list, supports, strength, net, slots[from]@, 0) {
            Some(violation) => Some(violation),
            None => net_violation(list, supports, strength, net, slots, from + 1),
        }
    }
}

/// What was recorded for a group, from one entry on.
pub open spec fn strength_of(walks: Seq<GroupWalk>, root: usize, from: int) -> Seq<(Position, u8)>
    decreases walks.len() - from,
{
    if from < 0 || from >= walks.len() {
        seq![]
    } else if walks[from].root == root {
        walks[from].strength@
    } else {
        strength_of(walks, root, from + 1)
    }
}

/// The first sink, net by net from one on, that the walk does not reach.
pub open spec fn first_violation(
    list: Netlist,
    nets: Seq<Net>,
    roots: Seq<usize>,
    walks: Seq<GroupWalk>,
    supports: Seq<Option<Position>>,
    from: int,
) -> Option<SignalViolation>
    decreases nets.len() - from,
{
    if from < 0 || from >= nets.len() {
        None
    } else {
        match net_violation(
            list,
            supports,
            strength_of(walks, roots[from], 0),
            from as usize,
            nets[from].sinks@,
            0,
        ) {
            Some(violation) => Some(violation),
            None => first_violation(list, nets, roots, walks, supports, from + 1),
        }
    }
}

fn find_walk<'a>(walks: &'a Vec<GroupWalk>, root: usize) -> (found: Option<&'a GroupWalk>)
    ensures
        match found {
            Some(walk) => walk.root == root && walk.strength@ == strength_of(walks@, root, 0),
            None => strength_of(walks@, root, 0) == Seq::<(Position, u8)>::empty(),
        },
{
    let mut at: usize = 0;
    while at < walks.len()
        invariant
            at <= walks@.len(),
            strength_of(walks@, root, 0) == strength_of(walks@, root, at as int),
        decreases walks@.len() - at,
    {
        if walks[at].root == root {
            return Some(&walks[at]);
        }
        at = at + 1;
    }
    None
}

/// The refusal that the walk makes the judge issue, if any: the first gate's input
/// that its own net does not reach.
pub fn replica_refusal(
    list: &Netlist,
    nets: &Vec<Net>,
    roots: &Vec<usize>,
    walks: &Vec<GroupWalk>,
    supports: &Vec<Option<Position>>,
) -> (refusal: Option<SignalViolation>)
    requires
        roots@.len() == nets@.len(),
        sinks_in_range(*list, nets@, supports@),
    ensures
        refusal == first_violation(*list, nets@, roots@, walks@, supports@, 0),
{
    let none: Vec<(Position, u8)> = Vec::new();
    let mut n: usize = 0;
    while n < nets.len()
        invariant
            roots@.len() == nets@.len(),
            sinks_in_range(*list, nets@, supports@),
            none@.len() == 0,
            n <= nets@.len(),
            first_violation(*list, nets@, roots@, walks@, supports@, 0) == first_violation(
                *list,
                nets@,
                roots@,
                walks@,
                supports@,
                n as int,
            ),
        decreases nets@.len() - n,
    {
        let strength: &Vec<(Position, u8)> = match find_walk(walks, roots[n]) {
            Some(walk) => &walk.strength,
            None => &none,
        };
        assert(strength@ =~= strength_of(walks@, roots@[n as int], 0));
        let slots: &Vec<Vec<(usize, usize)>> = &nets[n].sinks;
        let mut slot: usize = 0;
        while slot < slots.len()
            invariant
                roots@.len() == nets@.len(),
                sinks_in_range(*list, nets@, supports@),
                n < nets@.len(),
                *slots == nets@[n as int].sinks,
                strength@ == strength_of(walks@, roots@[n as int], 0),
                slot <= slots@.len(),
                first_violation(*list, nets@, roots@, walks@, supports@, 0) == first_violation(
                    *list,
                    nets@,
                    roots@,
                    walks@,
                    supports@,
                    n as int,
                ),
                net_violation(*list, supports@, strength@, n, slots@, 0) == net_violation(
                    *list,
                    supports@,
                    strength@,
                    n,
                    slots@,
                    slot as int,
                ),
            decreases slots@.len() - slot,
        {
            let sinks: &Vec<(usize, usize)> = &slots[slot];
            let mut k: usize = 0;
            while k < sinks.len()
                invariant
                    sinks_in_range(*list, nets@, supports@),
                    n < nets@.len(),
                    *slots == nets@[n as int].sinks,
                    slot < slots@.len(),
                    *sinks == slots@[slot as int],
                    strength@ == strength_of(walks@, roots@[n as int], 0),
                    k <= sinks@.len(),
                    first_violation(*list, nets@, roots@, walks@, supports@, 0)
                        == first_violation(
                        *list,
                        nets@,
                        roots@,
                        walks@,
                        supports@,
                        n as int,
                    ),
                    net_violation(*list, supports@, strength@, n, slots@, 0) == net_violation(
                        *list,
                        supports@,
                        strength@,
                        n,
                        slots@,
                        slot as int,
                    ),
                    slot_violation(*list, supports@, strength@, n, sinks@, 0) == slot_violation(
                        *list,
                        supports@,
                        strength@,
                        n,
                        sinks@,
                        k as int,
                    ),
                decreases sinks@.len() - k,
            {
                let gate: usize = sinks[k].0;
                assert(nets@[n as int].sinks@[slot as int]@[k as int].0 < list.gates@.len());
                if !list.gates[gate].is_merge() {
                    if let Some(support) = supports[gate] {
                        if find_strength(strength, support) == 0 {
                            return Some(SignalViolation { net: n, gate, support });
                        }
                    }
                }
                k = k + 1;
            }
            slot = slot + 1;
        }
        n = n + 1;
    }
    None
}

pub open spec fn settled_ok(worlds: Seq<Settled>) -> bool {
    forall|i: int| 0 <= i < worlds.len() ==> (#[trigger] worlds[i]).wf()
}

/// How many of the first `count` origins send out power.
pub open spec fn live_origins(settled: Settled, origins: Seq<Position>, count: nat) -> nat
    decreases count,
{
    if count == 0 {
        0
    } else {
        live_origins(settled, origins, (count - 1) as nat) + (if carries(
            settled.power_at(origins[count - 1]),
        ) > 0 {
            1nat
        } else {
            0nat
        })
    }
}

fn count_live(settled: &Settled, origins: &Vec<Position>) -> (count: usize)
    requires
        settled.wf(),
    ensures
        count == live_origins(*settled, origins@, origins@.len()),
{
    let mut count: usize = 0;
    let mut at: usize = 0;
    while at < origins.len()
        invariant
            settled.wf(),
            at <= origins@.len(),
            count == live_origins(*settled, origins@, at as nat),
            count <= at,
        decreases origins@.len() - at,
    {
        if observed(settled, origins[at]) > 0 {
            count = count + 1;
        }
        at = at + 1;
    }
    count
}

/// The first of the first `count` vectors at which the most origins send out
/// power.
pub open spec fn liveliest(sweep: Seq<Settled>, origins: Seq<Position>, count: nat) -> int
    decreases count,
{
    if count <= 1 {
        0
    } else {
        let before = liveliest(sweep, origins, (count - 1) as nat);
        if live_origins(sweep[count - 1], origins, origins.len()) > live_origins(
            sweep[before],
            origins,
            origins.len(),
        ) {
            count - 1
        } else {
            before
        }
    }
}

/// No vector has more live origins, and none before it as many.
pub proof fn lemma_liveliest(sweep: Seq<Settled>, origins: Seq<Position>, count: nat)
    requires
        0 < count <= sweep.len(),
    ensures
        ({
            let best = liveliest(sweep, origins, count);
            let most = live_origins(sweep[best], origins, origins.len());
            &&& 0 <= best < count
            &&& forall|i: int|
                0 <= i < count ==> live_origins(#[trigger] sweep[i], origins, origins.len())
                    <= most
            &&& forall|i: int|
                0 <= i < best ==> live_origins(#[trigger] sweep[i], origins, origins.len()) < most
        }),
    decreases count,
{
    if count > 1 {
        lemma_liveliest(sweep, origins, (count - 1) as nat);
    }
}

/// Names with commas between them.
pub open spec fn joined_names(names: Seq<Seq<char>>) -> Seq<char>
    decreases names.len(),
{
    if names.len() == 0 {
        seq![]
    } else if names.len() == 1 {
        names[0]
    } else {
        joined_names(names.drop_last()) + ", "@ + names.last()
    }
}

pub fn join_names(names: &Vec<String>) -> (written: String)
    ensures
        written@ == joined_names(netlist::texts(names@)),
{
    let ghost views = netlist::texts(names@);
    let mut written: String = "".to_owned();
    proof {
        reveal_strlit("");
        assert(""@ =~= seq![]);
    }
    let mut at: usize = 0;
    while at < names.len()
        invariant
            at <= names@.len(),
            views == netlist::texts(names@),
            written@ == joined_names(views.take(at as int)),
        decreases names@.len() - at,
    {
        proof {
            assert(views.take(at + 1).drop_last() =~= views.take(at as int));
            assert(views.take(at + 1).last() == names@[at as int]@);
        }
        if at > 0 {
            written.append(", ");
        }
        written.append(names[at].as_str());
        at = at + 1;
        assert(written@ =~= joined_names(views.take(at as int)));
    }
    assert(views.take(at as int) =~= views);
    written
}

/// The names of a group's nets.
pub open spec fn group_names(net_names: Seq<String>, nets: Seq<usize>) -> Seq<Seq<char>> {
    Seq::new(nets.len(), |i: int| net_names[nets[i] as int]@)
}

fn names_of_group(net_names: &Vec<String>, nets: &Vec<usize>) -> (names: Vec<String>)
    requires
        forall|i: int| 0 <= i < nets@.len() ==> (#[trigger] nets@[i]) < net_names@.len(),
    ensures
        netlist::texts(names@) == group_names(net_names@, nets@),
{
    let mut names: Vec<String> = Vec::new();
    let mut at: usize = 0;
    while at < nets.len()
        invariant
            forall|i: int| 0 <= i < nets@.len() ==> (#[trigger] nets@[i]) < net_names@.len(),
            at <= nets@.len(),
            names@.len() == at,
            forall|i: int|
                0 <= i < at ==> (#[trigger] names@[i])@ == net_names@[nets@[i] as int]@,
        decreases nets@.len() - at,
    {
        let n: usize = nets[at];
        names.push(net_names[n].as_str().to_owned());
        at = at + 1;
    }
    assert(netlist::texts(names@) =~= group_names(net_names@, nets@));
    names
}

/// Why a group cannot be measured, if it cannot.
pub open spec fn group_unmeasured(
    walk: GroupWalk,
    net_names: Seq<String>,
    sweep: Seq<Settled>,
) -> Option<Seq<char>> {
    let head = "group "@ + text::decimal(walk.root as nat) + " ("@ + joined_names(
        group_names(net_names, walk.nets@),
    );
    let best = sweep[liveliest(sweep, walk.origins@, sweep.len())];
    if walk.origins@.len() == 0 {
        Some(head + ") seeds no origin at all -- merge-sourced only"@)
    } else if live_origins(best, walk.origins@, walk.origins@.len()) == 0 {
        Some(
            head + (") has no input vector in which any of its "@ + text::decimal(
                walk.origins@.len(),
            ) + " origin(s) emit"@),
        )
    } else {
        None
    }
}

/// The vector at which to measure a group, by its number, or why there is none.
pub fn group_vector(walk: &GroupWalk, net_names: &Vec<String>, sweep: &Vec<Settled>) -> (vector:
    Result<usize, String>)
    requires
        sweep@.len() > 0,
        settled_ok(sweep@),
        forall|i: int| 0 <= i < walk.nets@.len() ==> (#[trigger] walk.nets@[i]) < net_names@.len(),
    ensures
        match vector {
            Ok(index) => group_unmeasured(*walk, net_names@, sweep@) is None && index == liveliest(
                sweep@,
                walk.origins@,
                sweep@.len(),
            ) && index < sweep@.len(),
            Err(message) => group_unmeasured(*walk, net_names@, sweep@) == Some(message@),
        },
{
    let names: Vec<String> = names_of_group(net_names, &walk.nets);
    let joined: String = join_names(&names);
    let number: String = text::decimal_text(walk.root as u64);
    if walk.origins.len() == 0 {
        return Err(
            text::glue5(
                "group ",
                number.as_str(),
                " (",
                joined.as_str(),
                ") seeds no origin at all -- merge-sourced only",
            ),
        );
    }
    assert(sweep@[0].wf());
    let mut best: usize = 0;
    let mut most: usize = count_live(&sweep[0], &walk.origins);
    let mut at: usize = 1;
    while at < sweep.len()
        invariant
            settled_ok(sweep@),
            1 <= at <= sweep@.len(),
            best < at,
            best == liveliest(sweep@, walk.origins@, at as nat),
            most == live_origins(sweep@[best as int], walk.origins@, walk.origins@.len()),
        decreases sweep@.len() - at,
    {
        assert(sweep@[at as int].wf());
        let live: usize = count_live(&sweep[at], &walk.origins);
        if live > most {
            most = live;
            best = at;
        }
        at = at + 1;
    }
    if most == 0 {
        let count: String = text::decimal_text(walk.origins.len() as u64);
        let tail: String = text::glue3(
            ") has no input vector in which any of its ",
            count.as_str(),
            " origin(s) emit",
        );
        return Err(
            text::glue5("group ", number.as_str(), " (", joined.as_str(), tail.as_str()),
        );
    }
    Ok(best)
}

/// Each cell once, where it comes first.
pub open spec fn first_seen(list: Seq<Position>) -> Seq<Position>
    decreases list.len(),
{
    if list.len() == 0 {
        seq![]
    } else {
        let before = first_seen(list.drop_last());
        if before.contains(list.last()) {
            before
        } else {
            before.push(list.last())
        }
    }
}

pub open spec fn below(cell: Position) -> Position {
    Position { x: cell.x, y: (cell.y - 1) as i32, z: cell.z }
}

/// The cells to read for a group: those that the judge reads, then its own, then
/// whatever else the walk recorded, then the floors of its own.
pub open spec fn cells_to_read(
    sinks: Seq<Position>,
    own: Seq<Position>,
    recorded: Seq<Position>,
) -> Seq<Position> {
    sinks + own + recorded + Seq::new(own.len(), |i: int| below(own[i]))
}

/// What the two answers are at a cell.
pub open spec fn reading_at(
    realised: World,
    sinks: Seq<Position>,
    strength: Seq<(Position, u8)>,
    live: Settled,
    control: Settled,
    isolations: Seq<OriginIsolation>,
    cell: Position,
) -> Reading {
    let is_sink = sinks.contains(cell);
    let best = best_alone(isolations, cell, isolations.len());
    Reading {
        cell,
        class: class_of(realised, cell, is_sink),
        kind: at_cell(live.world, cell).kind,
        is_sink,
        walk: recorded_at(strength, cell),
        live: carries(live.power_at(cell)),
        control: carries(control.power_at(cell)),
        solo: match best {
            Some((origin, value)) => value,
            None => 0,
        },
        solo_origin: match best {
            Some((origin, value)) => Some(origin),
            None => None,
        },
        live_strong: live.power_at(cell).power == BlockPower::Strong,
    }
}

/// The readings of a group, cell by cell.
pub open spec fn readings_at(
    realised: World,
    sinks: Seq<Position>,
    strength: Seq<(Position, u8)>,
    live: Settled,
    control: Settled,
    isolations: Seq<OriginIsolation>,
    list: Seq<Position>,
) -> Seq<Reading> {
    let seen = first_seen(list);
    Seq::new(
        seen.len(),
        |i: int| reading_at(realised, sinks, strength, live, control, isolations, seen[i]),
    )
}

/// What a group is read against.
struct Bench<'a> {
    realised: &'a World,
    sinks: &'a Vec<Position>,
    strength: &'a Vec<(Position, u8)>,
    live: &'a Settled,
    control: &'a Settled,
    isolations: &'a Vec<OriginIsolation>,
}

impl<'a> Bench<'a> {
    spec fn wf(self) -> bool {
        &&& self.realised.wf()
        &&& self.live.wf()
        &&& self.control.wf()
        &&& isolations_ok(self.isolations@)
    }

    spec fn readings(self, list: Seq<Position>) -> Seq<Reading> {
        readings_at(
            *self.realised,
            self.sinks@,
            self.strength@,
            *self.live,
            *self.control,
            self.isolations@,
            list,
        )
    }

    /// Reads one more cell, unless it has been read.
    fn read(
        &self,
        readings: &mut Vec<Reading>,
        seen: &mut Vec<Position>,
        cell: Position,
        Ghost(list): Ghost<Seq<Position>>,
    )
        requires
            self.wf(),
            old(seen)@ == first_seen(list),
            old(readings)@ == self.readings(list),
        ensures
            final(seen)@ == first_seen(list.push(cell)),
            final(readings)@ == self.readings(list.push(cell)),
    {
        proof {
            assert(list.push(cell).drop_last() =~= list);
        }
        if cells::holds_cell(seen, cell) {
            assert(readings@ =~= self.readings(list.push(cell)));
            return;
        }
        let is_sink: bool = cells::holds_cell(self.sinks, cell);
        let (solo, solo_origin): (u8, Option<Position>) = match best_solo(self.isolations, cell) {
            Some((origin, value)) => (value, Some(origin)),
            None => (0, None),
        };
        let reading = Reading {
            cell,
            class: classify(self.realised, cell, is_sink),
            kind: self.live.world.get(cell.x, cell.y, cell.z).kind,
            is_sink,
            walk: find_strength(self.strength, cell),
            live: observed(self.live, cell),
            control: observed(self.control, cell),
            solo,
            solo_origin,
            live_strong: observed_strong(self.live, cell),
        };
        let ghost before = readings@;
        seen.push(cell);
        readings.push(reading);
        proof {
            assert(readings@ =~= before.push(reading));
            assert(self.readings(list.push(cell)) =~= before.push(reading));
        }
    }

    /// Reads cells one after the other.
    fn read_all(
        &self,
        readings: &mut Vec<Reading>,
        seen: &mut Vec<Position>,
        list: &Vec<Position>,
        Ghost(before): Ghost<Seq<Position>>,
    )
        requires
            self.wf(),
            old(seen)@ == first_seen(before),
            old(readings)@ == self.readings(before),
        ensures
            final(seen)@ == first_seen(before + list@),
            final(readings)@ == self.readings(before + list@),
    {
        let mut at: usize = 0;
        assert(before + list@.take(0) =~= before);
        while at < list.len()
            invariant
                self.wf(),
                at <= list@.len(),
                seen@ == first_seen(before + list@.take(at as int)),
                readings@ == self.readings(before + list@.take(at as int)),
            decreases list@.len() - at,
        {
            proof {
                assert(before + list@.take(at + 1) =~= (before + list@.take(at as int)).push(
                    list@[at as int],
                ));
            }
            self.read(readings, seen, list[at], Ghost(before + list@.take(at as int)));
            at = at + 1;
        }
        assert(list@.take(at as int) =~= list@);
    }
}

/// The cells of a list, in order.
fn in_order(list: &Vec<Position>) -> (ordered: Vec<Position>)
    ensures
        cells::lists(ordered@, list@.to_set()),
{
    let mut ordered: Vec<Position> = Vec::new();
    let mut at: usize = 0;
    assert(ordered@.to_set() =~= list@.take(0).to_set());
    while at < list.len()
        invariant
            at <= list@.len(),
            cells::ascending(ordered@),
            ordered@.to_set() == list@.take(at as int).to_set(),
        decreases list@.len() - at,
    {
        cells::insert_cell(&mut ordered, list[at]);
        proof {
            let fewer = list@.take(at as int);
            let more = list@.take(at + 1);
            assert(more =~= fewer.push(list@[at as int]));
            assert(more.to_set() =~= fewer.to_set().insert(list@[at as int])) by {
                assert forall|cell: Position| more.to_set().contains(cell)
                    == fewer.to_set().insert(list@[at as int]).contains(cell) by {
                    if more.contains(cell) {
                        let i = choose|i: int| 0 <= i < more.len() && more[i] == cell;
                        if i < fewer.len() {
                            assert(fewer[i] == cell);
                        }
                    }
                    if fewer.contains(cell) {
                        let i = choose|i: int| 0 <= i < fewer.len() && fewer[i] == cell;
                        assert(more[i] == cell);
                    }
                    if cell == list@[at as int] {
                        assert(more[at as int] == cell);
                    }
                }
            }
        }
        at = at + 1;
    }
    assert(list@.take(at as int) =~= list@);
    ordered
}

pub open spec fn recorded_cells(strength: Seq<(Position, u8)>) -> Seq<Position> {
    Seq::new(strength.len(), |i: int| strength[i].0)
}

/// The readings of a group are those of the cells to read, each list of cells in
/// order.
pub open spec fn group_readings(
    realised: World,
    walk: GroupWalk,
    sinks: Seq<Position>,
    live: Settled,
    control: Settled,
    isolations: Seq<OriginIsolation>,
    readings: Seq<Reading>,
) -> bool {
    exists|own: Seq<Position>, recorded: Seq<Position>|
        #![trigger cells_to_read(sinks, own, recorded)]
        cells::lists(own, walk.cells@.to_set()) && cells::lists(
            recorded,
            recorded_cells(walk.strength@).to_set(),
        ) && readings == readings_at(
            realised,
            sinks,
            walk.strength@,
            live,
            control,
            isolations,
            cells_to_read(sinks, own, recorded),
        )
}

impl GroupReport {
    /// The report is that of a group at a vector.
    pub open spec fn is_report(
        self,
        realised: World,
        walk: GroupWalk,
        net_names: Seq<String>,
        sinks: Seq<Position>,
        levers: Seq<(String, Position)>,
        bits: Seq<bool>,
        live: Settled,
        control: Settled,
        isolations: Seq<OriginIsolation>,
    ) -> bool {
        &&& self.root == walk.root
        &&& netlist::texts(self.nets@) == group_names(net_names, walk.nets@)
        &&& self.origins@ == Seq::new(
            walk.origins@.len(),
            |i: int| (walk.origins@[i], carries(live.power_at(walk.origins@[i])) > 0),
        )
        &&& self.vector@.len() == levers.len()
        &&& forall|i: int|
            0 <= i < levers.len() ==> (#[trigger] self.vector@[i]).0@ == levers[i].0@
                && self.vector@[i].1 == bits[i]
        &&& group_readings(
            realised,
            walk,
            sinks,
            live,
            control,
            isolations,
            self.readings@,
        )
    }
}

/// Every cell has one below it.
pub open spec fn have_floors(list: Seq<Position>) -> bool {
    forall|i: int| 0 <= i < list.len() ==> (#[trigger] list[i]).y > i32::MIN
}

/// Reports on one group.
pub fn report_group(
    realised: &World,
    walk: &GroupWalk,
    net_names: &Vec<String>,
    sinks: &Vec<Position>,
    levers: &Vec<(String, Position)>,
    bits: &Vec<bool>,
    live: &Settled,
    control: &Settled,
    isolations: &Vec<OriginIsolation>,
) -> (report: GroupReport)
    requires
        realised.wf(),
        live.wf(),
        control.wf(),
        isolations_ok(isolations@),
        bits@.len() == levers@.len(),
        have_floors(walk.cells@),
        forall|i: int| 0 <= i < walk.nets@.len() ==> (#[trigger] walk.nets@[i]) < net_names@.len(),
    ensures
        report.is_report(
            *realised,
            *walk,
            net_names@,
            sinks@,
            levers@,
            bits@,
            *live,
            *control,
            isolations@,
        ),
{
    let bench = Bench { realised, sinks, strength: &walk.strength, live, control, isolations };
    let mut readings: Vec<Reading> = Vec::new();
    let mut seen: Vec<Position> = Vec::new();
    let ghost none: Seq<Position> = seq![];
    proof {
        assert(seen@ =~= first_seen(none));
        assert(readings@ =~= bench.readings(none));
    }
    bench.read_all(&mut readings, &mut seen, sinks, Ghost(none));
    let own: Vec<Position> = in_order(&walk.cells);
    bench.read_all(&mut readings, &mut seen, &own, Ghost(none + sinks@));
    let mut noted: Vec<Position> = Vec::new();
    let mut at: usize = 0;
    while at < walk.strength.len()
        invariant
            at <= walk.strength@.len(),
            noted@.len() == at,
            forall|i: int| 0 <= i < at ==> #[trigger] noted@[i] == walk.strength@[i].0,
        decreases walk.strength@.len() - at,
    {
        noted.push(walk.strength[at].0);
        at = at + 1;
    }
    assert(noted@ =~= recorded_cells(walk.strength@));
    let recorded: Vec<Position> = in_order(&noted);
    bench.read_all(&mut readings, &mut seen, &recorded, Ghost(none + sinks@ + own@));
    let mut floors: Vec<Position> = Vec::new();
    at = 0;
    while at < own.len()
        invariant
            have_floors(walk.cells@),
            own@.to_set() == walk.cells@.to_set(),
            at <= own@.len(),
            floors@.len() == at,
            forall|i: int| 0 <= i < at ==> #[trigger] floors@[i] == below(own@[i]),
        decreases own@.len() - at,
    {
        let cell: Position = own[at];
        proof {
            assert(own@.to_set().contains(own@[at as int]));
            assert(walk.cells@.to_set().contains(cell));
            let i = choose|i: int| 0 <= i < walk.cells@.len() && walk.cells@[i] == cell;
            assert(walk.cells@[i].y > i32::MIN);
        }
        floors.push(Position::new(cell.x, cell.y - 1, cell.z));
        at = at + 1;
    }
    bench.read_all(&mut readings, &mut seen, &floors, Ghost(none + sinks@ + own@ + recorded@));
    proof {
        assert(floors@ =~= Seq::new(own@.len(), |i: int| below(own@[i])));
        assert(none + sinks@ + own@ + recorded@ + floors@ =~= cells_to_read(
            sinks@,
            own@,
            recorded@,
        ));
    }
    let mut origins: Vec<(Position, bool)> = Vec::new();
    at = 0;
    while at < walk.origins.len()
        invariant
            live.wf(),
            at <= walk.origins@.len(),
            origins@.len() == at,
            forall|i: int|
                0 <= i < at ==> #[trigger] origins@[i] == (
                    walk.origins@[i],
                    carries(live.power_at(walk.origins@[i])) > 0,
                ),
        decreases walk.origins@.len() - at,
    {
        let origin: Position = walk.origins[at];
        origins.push((origin, observed(live, origin) > 0));
        at = at + 1;
    }
    let mut vector: Vec<(String, bool)> = Vec::new();
    at = 0;
    while at < levers.len()
        invariant
            bits@.len() == levers@.len(),
            at <= levers@.len(),
            vector@.len() == at,
            forall|i: int|
                0 <= i < at ==> (#[trigger] vector@[i]).0@ == levers@[i].0@ && vector@[i].1
                    == bits@[i],
        decreases levers@.len() - at,
    {
        vector.push((levers[at].0.as_str().to_owned(), bits[at]));
        at = at + 1;
    }
    let nets: Vec<String> = names_of_group(net_names, &walk.nets);
    let report = GroupReport { root: walk.root, nets, origins, vector, readings };
    proof {
        assert(report.origins@ =~= Seq::new(
            walk.origins@.len(),
            |i: int| (walk.origins@[i], carries(live.power_at(walk.origins@[i])) > 0),
        ));
        assert(group_readings(
            *realised,
            *walk,
            sinks@,
            *live,
            *control,
            isolations@,
            report.readings@,
        ));
    }
    report
}

/// The settled worlds of one group that can be measured.
pub struct GroupRun {
    /// The world at the group's vector without its origins.
    pub control: Settled,
    /// One world for each origin, alone.
    pub isolations: Vec<OriginIsolation>,
}

/// The numbers of the groups that can be measured, among the first `count`.
pub open spec fn measurable(
    walks: Seq<GroupWalk>,
    net_names: Seq<String>,
    sweep: Seq<Settled>,
    count: nat,
) -> Seq<int>
    decreases count,
{
    if count == 0 {
        seq![]
    } else {
        let before = measurable(walks, net_names, sweep, (count - 1) as nat);
        match group_unmeasured(walks[count - 1], net_names, sweep) {
            Some(_) => before,
            None => before.push(count - 1),
        }
    }
}

pub open spec fn silent_text(root: usize, origin: Position) -> Seq<char> {
    "group "@ + text::decimal(root as nat) + " origin ("@ + text::signed_decimal(
        origin.x as int,
    ) + (", "@ + text::signed_decimal(origin.y as int) + ", "@ + text::signed_decimal(
        origin.z as int,
    )
        + ") does not emit even as the only component left in the world -- nothing it feeds is attributable"@)
}

/// The origins among the first `count` that do not emit even alone.
pub open spec fn silent_lines(
    root: usize,
    isolations: Seq<OriginIsolation>,
    count: nat,
) -> Seq<Seq<char>>
    decreases count,
{
    if count == 0 {
        seq![]
    } else {
        let before = silent_lines(root, isolations, (count - 1) as nat);
        let one = isolations[count - 1];
        if one.emits {
            before
        } else {
            before.push(silent_text(root, one.origin))
        }
    }
}

/// What of the first `count` groups is not measured, and why.
pub open spec fn unmeasured_lines(
    walks: Seq<GroupWalk>,
    net_names: Seq<String>,
    sweep: Seq<Settled>,
    runs: Seq<GroupRun>,
    count: nat,
) -> Seq<Seq<char>>
    decreases count,
{
    if count == 0 {
        seq![]
    } else {
        let before = unmeasured_lines(walks, net_names, sweep, runs, (count - 1) as nat);
        let walk = walks[count - 1];
        match group_unmeasured(walk, net_names, sweep) {
            Some(line) => before.push(line),
            None => {
                let run = runs[measurable(walks, net_names, sweep, (count - 1) as nat).len() as int];
                before + silent_lines(walk.root, run.isolations@, run.isolations@.len())
            },
        }
    }
}

/// No group passes in silence: each is measured, once and in turn, or a line says
/// why it is not.
pub proof fn lemma_every_group_is_accounted_for(
    walks: Seq<GroupWalk>,
    net_names: Seq<String>,
    sweep: Seq<Settled>,
    runs: Seq<GroupRun>,
    count: nat,
)
    ensures
        ({
            let numbers = measurable(walks, net_names, sweep, count);
            let lines = unmeasured_lines(walks, net_names, sweep, runs, count);
            &&& forall|i: int, j: int|
                0 <= i < j < numbers.len() ==> #[trigger] numbers[i] < #[trigger] numbers[j]
            &&& forall|w: int| #[trigger]
                numbers.contains(w) <==> 0 <= w < count && group_unmeasured(
                    walks[w],
                    net_names,
                    sweep,
                ) is None
            &&& forall|w: int|
                0 <= w < count ==> match #[trigger] group_unmeasured(walks[w], net_names, sweep) {
                    Some(line) => lines.contains(line),
                    None => true,
                }
        }),
    decreases count,
{
    if count > 0 {
        let last = count - 1;
        lemma_every_group_is_accounted_for(walks, net_names, sweep, runs, last as nat);
        let before = measurable(walks, net_names, sweep, last as nat);
        let numbers = measurable(walks, net_names, sweep, count);
        let earlier = unmeasured_lines(walks, net_names, sweep, runs, last as nat);
        let lines = unmeasured_lines(walks, net_names, sweep, runs, count);
        assert forall|line: Seq<char>| earlier.contains(line) implies #[trigger] lines.contains(
            line,
        ) by {
            let k = choose|k: int| 0 <= k < earlier.len() && earlier[k] == line;
            assert(lines[k] == line);
        }
        match group_unmeasured(walks[last], net_names, sweep) {
            Some(line) => {
                assert(lines[earlier.len() as int] == line);
            },
            None => {
                assert forall|w: int| #[trigger] numbers.contains(w) <==> before.contains(w) || w
                    == last by {
                    if before.contains(w) {
                        let k = choose|k: int| 0 <= k < before.len() && before[k] == w;
                        assert(numbers[k] == w);
                    }
                    assert(numbers[before.len() as int] == last);
                }
                assert forall|i: int, j: int| 0 <= i < j < numbers.len() implies #[trigger] numbers[i]
                    < #[trigger] numbers[j] by {
                    if j == before.len() {
                        assert(before.contains(before[i]));
                    }
                }
            },
        }
    }
}

/// How many worlds the first `count` groups took: a control and one for each
/// origin of every group that was measured.
pub open spec fn group_settles(
    walks: Seq<GroupWalk>,
    net_names: Seq<String>,
    sweep: Seq<Settled>,
    count: nat,
) -> nat
    decreases count,
{
    if count == 0 {
        0
    } else {
        group_settles(walks, net_names, sweep, (count - 1) as nat) + (match group_unmeasured(
            walks[count - 1],
            net_names,
            sweep,
        ) {
            Some(_) => 0,
            None => 1 + walks[count - 1].origins@.len(),
        })
    }
}

proof fn lemma_settles_grow(
    walks: Seq<GroupWalk>,
    net_names: Seq<String>,
    sweep: Seq<Settled>,
    few: nat,
    many: nat,
)
    requires
        few <= many,
    ensures
        group_settles(walks, net_names, sweep, few) <= group_settles(
            walks,
            net_names,
            sweep,
            many,
        ),
        measurable(walks, net_names, sweep, few).len() <= measurable(
            walks,
            net_names,
            sweep,
            many,
        ).len(),
    decreases many - few,
{
    if few < many {
        lemma_settles_grow(walks, net_names, sweep, few, (many - 1) as nat);
    }
}

pub open spec fn run_ok(run: GroupRun) -> bool {
    run.control.wf() && isolations_ok(run.isolations@)
}

/// The isolations are those of the group's origins, one for each and in order.
pub open spec fn isolates(run: GroupRun, walk: GroupWalk) -> bool {
    &&& run.isolations@.len() == walk.origins@.len()
    &&& forall|i: int|
        0 <= i < walk.origins@.len() ==> (#[trigger] run.isolations@[i]).origin
            == walk.origins@[i]
}

/// Every vector of the levers is swept, the groups ascend by their roots, every net
/// has a name, every cell a floor, and every group that can be measured a run with
/// each of its origins alone.
pub open spec fn runs_ok(
    walks: Seq<GroupWalk>,
    net_names: Seq<String>,
    sinks: Seq<Vec<Position>>,
    levers: nat,
    sweep: Seq<Settled>,
    runs: Seq<GroupRun>,
) -> bool {
    let numbers = measurable(walks, net_names, sweep, walks.len());
    &&& sweep.len() == power2::pow2(levers)
    &&& settled_ok(sweep)
    &&& sinks.len() == walks.len()
    &&& runs.len() == numbers.len()
    &&& forall|i: int|
        0 <= i < runs.len() ==> run_ok(#[trigger] runs[i]) && isolates(runs[i], walks[numbers[i]])
    &&& forall|i: int, j: int|
        0 <= i < j < walks.len() ==> (#[trigger] walks[i]).root < (#[trigger] walks[j]).root
    &&& forall|i: int| 0 <= i < walks.len() ==> have_floors((#[trigger] walks[i]).cells@)
    &&& forall|i: int, k: int|
        0 <= i < walks.len() && 0 <= k < walks[i].nets@.len() ==> (#[trigger] walks[i].nets@[k])
            < net_names.len()
}

/// The vector at which a group is measured.
pub open spec fn vector_for(levers: nat, sweep: Seq<Settled>, walk: GroupWalk) -> Seq<bool> {
    vector_of(levers, liveliest(sweep, walk.origins@, sweep.len()) as nat)
}

spec fn reports_match(
    reports: Seq<GroupReport>,
    realised: World,
    walks: Seq<GroupWalk>,
    net_names: Seq<String>,
    sinks: Seq<Vec<Position>>,
    levers: Seq<(String, Position)>,
    sweep: Seq<Settled>,
    runs: Seq<GroupRun>,
    count: nat,
) -> bool {
    let numbers = measurable(walks, net_names, sweep, count);
    &&& reports.len() == numbers.len()
    &&& forall|k: int|
        0 <= k < numbers.len() ==> is_run_report(
            #[trigger] reports[k],
            realised,
            walks[numbers[k]],
            net_names,
            sinks[numbers[k]]@,
            levers,
            sweep,
            runs[k],
        )
}

/// The report is that of a group's run.
pub open spec fn is_run_report(
    report: GroupReport,
    realised: World,
    walk: GroupWalk,
    net_names: Seq<String>,
    sinks: Seq<Position>,
    levers: Seq<(String, Position)>,
    sweep: Seq<Settled>,
    run: GroupRun,
) -> bool {
    report.is_report(
        realised,
        walk,
        net_names,
        sinks,
        levers,
        vector_for(levers.len(), sweep, walk),
        sweep[liveliest(sweep, walk.origins@, sweep.len())],
        run.control,
        run.isolations@,
    )
}

fn note_silent(root: usize, isolations: &Vec<OriginIsolation>, lines: &mut Vec<String>)
    ensures
        netlist::texts(final(lines)@) == netlist::texts(old(lines)@) + silent_lines(
            root,
            isolations@,
            isolations@.len(),
        ),
{
    let ghost before = netlist::texts(lines@);
    let mut at: usize = 0;
    assert(before + silent_lines(root, isolations@, 0) =~= before);
    while at < isolations.len()
        invariant
            at <= isolations@.len(),
            netlist::texts(lines@) == before + silent_lines(root, isolations@, at as nat),
        decreases isolations@.len() - at,
    {
        let ghost listed = lines@;
        if !isolations[at].emits {
            let origin: Position = isolations[at].origin;
            let number: String = text::decimal_text(root as u64);
            let x: String = text::signed_text(origin.x as i64);
            let y: String = text::signed_text(origin.y as i64);
            let z: String = text::signed_text(origin.z as i64);
            let tail: String = text::glue5(
                ", ",
                y.as_str(),
                ", ",
                z.as_str(),
                ") does not emit even as the only component left in the world -- nothing it feeds is attributable",
            );
            let line: String = text::glue5(
                "group ",
                number.as_str(),
                " origin (",
                x.as_str(),
                tail.as_str(),
            );
            lines.push(line);
            proof {
                assert(netlist::texts(lines@) =~= netlist::texts(listed).push(
                    silent_text(root, origin),
                ));
                assert(before + silent_lines(root, isolations@, (at + 1) as nat) =~= (before
                    + silent_lines(root, isolations@, at as nat)).push(silent_text(root, origin)));
            }
        }
        at = at + 1;
    }
}

/// The whole comparison for a circuit, from the worlds that have settled: one for
/// each vector of the inputs, and for every group that can be measured its
/// control and one for each of its origins.
pub fn measure(
    realised: &World,
    walks: &Vec<GroupWalk>,
    net_names: &Vec<String>,
    sinks: &Vec<Vec<Position>>,
    levers: &Vec<(String, Position)>,
    sweep: &Vec<Settled>,
    runs: &Vec<GroupRun>,
    replica_verdict: Option<String>,
    shipping_verdict: Option<String>,
) -> (measurement: Measurement)
    requires
        realised.wf(),
        runs_ok(walks@, net_names@, sinks@, levers@.len(), sweep@, runs@),
        sweep@.len() + group_settles(walks@, net_names@, sweep@, walks@.len()) <= usize::MAX,
    ensures
        ({
            let numbers = measurable(walks@, net_names@, sweep@, walks@.len());
            &&& measurement.groups@.len() == numbers.len()
            &&& forall|k: int|
                0 <= k < numbers.len() ==> is_run_report(
                    #[trigger] measurement.groups@[k],
                    *realised,
                    walks@[numbers[k]],
                    net_names@,
                    sinks@[numbers[k]]@,
                    levers@,
                    sweep@,
                    runs@[k],
                )
        }),
        netlist::texts(measurement.unmeasured@) == unmeasured_lines(
            walks@,
            net_names@,
            sweep@,
            runs@,
            walks@.len(),
        ),
        measurement.replica_verdict == replica_verdict,
        measurement.shipping_verdict == shipping_verdict,
        measurement.settles == sweep@.len() + group_settles(
            walks@,
            net_names@,
            sweep@,
            walks@.len(),
        ),
{
    proof {
        power2::lemma_pow2_pos(levers@.len());
    }
    let mut groups: Vec<GroupReport> = Vec::new();
    let mut unmeasured: Vec<String> = Vec::new();
    let mut settles: usize = sweep.len();
    let mut w: usize = 0;
    assert(netlist::texts(unmeasured@) =~= seq![]);
    while w < walks.len()
        invariant
            realised.wf(),
            runs_ok(walks@, net_names@, sinks@, levers@.len(), sweep@, runs@),
            sweep@.len() > 0,
            sweep@.len() + group_settles(walks@, net_names@, sweep@, walks@.len()) <= usize::MAX,
            w <= walks@.len(),
            reports_match(
                groups@,
                *realised,
                walks@,
                net_names@,
                sinks@,
                levers@,
                sweep@,
                runs@,
                w as nat,
            ),
            netlist::texts(unmeasured@) == unmeasured_lines(
                walks@,
                net_names@,
                sweep@,
                runs@,
                w as nat,
            ),
            settles == sweep@.len() + group_settles(walks@, net_names@, sweep@, w as nat),
        decreases walks@.len() - w,
    {
        let walk: &GroupWalk = &walks[w];
        let ghost numbers = measurable(walks@, net_names@, sweep@, w as nat);
        proof {
            lemma_settles_grow(walks@, net_names@, sweep@, (w + 1) as nat, walks@.len());
            assert forall|k: int| 0 <= k < walk.nets@.len() implies (#[trigger] walk.nets@[k])
                < net_names@.len() by {
                assert(walks@[w as int].nets@[k] < net_names@.len());
            }
            assert(have_floors(walks@[w as int].cells@));
        }
        let ghost noted = unmeasured@;
        match group_vector(walk, net_names, sweep) {
            Err(line) => {
                unmeasured.push(line);
                assert(netlist::texts(unmeasured@) =~= netlist::texts(noted).push(line@));
            },
            Ok(index) => {
                let run: &GroupRun = &runs[groups.len()];
                assert(run_ok(runs@[groups@.len() as int]));
                assert(sweep@[index as int].wf());
                note_silent(walk.root, &run.isolations, &mut unmeasured);
                let bits: Vec<bool> = input_vector(levers.len(), index);
                proof {
                    lemma_vector_length(levers@.len(), index as nat);
                }
                let report: GroupReport = report_group(
                    realised,
                    walk,
                    net_names,
                    &sinks[w],
                    levers,
                    &bits,
                    &sweep[index],
                    &run.control,
                    &run.isolations,
                );
                settles = settles + 1 + walk.origins.len();
                let ghost before = groups@;
                groups.push(report);
                proof {
                    let more = measurable(walks@, net_names@, sweep@, (w + 1) as nat);
                    assert(more == numbers.push(w as int));
                    assert forall|k: int| 0 <= k < more.len() implies is_run_report(
                        #[trigger] groups@[k],
                        *realised,
                        walks@[more[k]],
                        net_names@,
                        sinks@[more[k]]@,
                        levers@,
                        sweep@,
                        runs@[k],
                    ) by {
                        if k < numbers.len() {
                            assert(groups@[k] == before[k]);
                            assert(more[k] == numbers[k]);
                        }
                    }
                }
            },
        }
        w = w + 1;
    }
    Measurement { groups, unmeasured, replica_verdict, shipping_verdict, settles }
}

proof fn lemma_vector_length(inputs: nat, number: nat)
    ensures
        vector_of(inputs, number).len() == inputs,
    decreases inputs,
{
    if inputs > 0 {
        lemma_vector_length((inputs - 1) as nat, number / 2);
    }
}

proof fn lemma_sorts_split(readings: Seq<Reading>)
    ensures
        readings.filter(compared()).len() + readings.filter(floor()).len() == readings.len(),
    decreases readings.len(),
{
    if readings.len() == 0 {
        readings.lemma_filter_len(compared());
        readings.lemma_filter_len(floor());
    } else {
        let fewer = readings.drop_last();
        lemma_sorts_split(fewer);
        assert(readings =~= fewer.push(readings.last()));
        fewer.lemma_filter_push(readings.last(), compared());
        fewer.lemma_filter_push(readings.last(), floor());
    }
}

/// Every reading is either compared or a floor that is only reported, and none is
/// both.
pub proof fn lemma_every_reading_is_counted_once(groups: Seq<GroupReport>, count: nat)
    requires
        count <= groups.len(),
    ensures
        readings_of(groups, compared(), count) + readings_of(groups, floor(), count)
            == all_readings(groups, count),
    decreases count,
{
    if count > 0 {
        lemma_every_reading_is_counted_once(groups, (count - 1) as nat);
        lemma_sorts_split(groups[count - 1].readings@);
    }
}

/// Each cell of a list is read, and read once.
pub proof fn lemma_each_cell_is_read_once(list: Seq<Position>)
    ensures
        first_seen(list).no_duplicates(),
        forall|cell: Position| #[trigger] first_seen(list).contains(cell) <==> list.contains(cell),
    decreases list.len(),
{
    if list.len() > 0 {
        let fewer = list.drop_last();
        let last = list.last();
        lemma_each_cell_is_read_once(fewer);
        let before = first_seen(fewer);
        assert forall|cell: Position| #[trigger] first_seen(list).contains(cell)
            <==> list.contains(cell) by {
            if list.contains(cell) {
                let i = choose|i: int| 0 <= i < list.len() && list[i] == cell;
                if i < fewer.len() {
                    assert(fewer[i] == cell);
                    assert(before.contains(cell));
                    let k = choose|k: int| 0 <= k < before.len() && before[k] == cell;
                    assert(first_seen(list)[k] == cell);
                } else if !before.contains(last) {
                    assert(first_seen(list)[before.len() as int] == cell);
                }
            }
            if first_seen(list).contains(cell) {
                let k = choose|k: int| 0 <= k < first_seen(list).len() && first_seen(list)[k] == cell;
                if k < before.len() {
                    assert(before[k] == cell);
                    assert(before.contains(cell));
                    let i = choose|i: int| 0 <= i < fewer.len() && fewer[i] == cell;
                    assert(list[i] == cell);
                } else {
                    assert(list[list.len() - 1] == cell);
                }
            }
        }
    }
}

} // verus!
