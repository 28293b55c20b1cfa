//! The bot's decisions: what it remembers of the world, what each tick and
//! each packet from the server changes, and what the bot does in answer.
//! Whoever runs the bot performs the actions and keeps the time.
use crate::datatypes::{Double, Float, MString, Slot, VarInt};
use crate::ieee::float_of_int;
use crate::packets::{ClientBound, ClientBoundView, ServerBound};
use std::collections::HashMap;
use vstd::prelude::*;
use vstd::std_specs::iter::IteratorSpec;

verus! {

broadcast use vstd::std_specs::hash::group_hash_axioms;

/// The protocol version that the handshake announces.
pub const PROTOCOL_VERSION: i64 = 753;

/// The server port that the handshake names.
pub const SERVER_PORT: u16 = 25565;

/// The statistics category that counts kills.
pub const KILLED: i64 = 6;

/// Sixteen, as a double: the square of the four blocks that an attack
/// reaches.
pub const REACH_SQUARED: u64 = 0x4030_0000_0000_0000;

/// The time between two equip and sneak ticks, in milliseconds.
pub const SYNC_MILLIS: u64 = 100;

/// The time between two requests for statistics, in milliseconds.
pub const STATISTICS_MILLIS: u64 = 1000;

/// The time between two auto-eat ticks, in milliseconds.
pub const EAT_MILLIS: u64 = 1000;

/// The time that eating takes, in milliseconds: what lies between the two
/// halves of a meal.
pub const MEAL_MILLIS: u64 = 1610;

/// The time between two looks at the attack speed while attacks are
/// switched off, in milliseconds.
pub const IDLE_MILLIS: u64 = 500;

/// What the user wants of the bot. The bot reads it at every tick and checks
/// none of it.
#[derive(Debug)]
pub struct Settings {
    /// Whether the player should sneak.
    pub sneak: bool,
    /// The mob types that may be attacked.
    pub attack_mobs: Vec<i64>,
    /// The item ids that may be eaten.
    pub eat_food: Vec<i64>,
    /// Attacks per second; zero switches attacks off.
    pub attack_speed: Float,
    /// The hotbar slot of the weapon, 0 to 8.
    pub weapon: u8,
    /// The health below which the bot leaves.
    pub min_health: Float,
    /// The food level below which the bot eats.
    pub eat_at: Float,
}

/// A tracked entity.
#[derive(Debug, Clone, Copy, PartialEq, Eq)]
pub struct Mob {
    pub entity_id: VarInt,
    pub entity_type: VarInt,
    pub pos: (Double, Double, Double),
}

/// What the bot remembers of its session.
#[derive(Debug)]
pub struct State {
    /// Set once an error has ended the session.
    pub shutdown: bool,
    /// The player's entity id, known from the join confirmation on.
    pub my_entity_id: Option<VarInt>,
    pub my_pos: (Double, Double, Double),
    /// The tracked entities, by entity id.
    pub mobs: HashMap<i64, Mob>,
    pub hotbar: [Slot; 9],
    pub sneaking: bool,
    /// The hotbar slot that the server was last told to hold.
    pub held_item: u8,
    pub food: Float,
    /// The first statistics that the server sent.
    pub initial_statistics: Vec<(VarInt, VarInt, VarInt)>,
    /// The statistics as they stand.
    pub statistics: Vec<(VarInt, VarInt, VarInt)>,
}

/// The two halves of a meal: what is sent to start eating, and what is sent
/// once the time that eating takes has passed.
#[derive(Debug, PartialEq, Eq)]
pub struct Meal {
    pub begin: Vec<ServerBound>,
    pub finish: Vec<ServerBound>,
}

/// True when `id` is in `list`.
pub fn contains_id(list: &Vec<i64>, id: i64) -> (r: bool)
    ensures
        r == list@.contains(id),
{
    let mut i: usize = 0;
    while i < list.len()
        invariant
            i <= list@.len(),
            forall|k: int| 0 <= k < i ==> list@[k] != id,
        decreases list@.len() - i,
    {
        if list[i] == id {
            return true;
        }
        i = i + 1;
    }
    false
}

/// The two packets that open a session: the handshake that asks for the
/// login phase, and the login itself.
pub fn login_packets(username: String) -> (r: Vec<ServerBound>)
    ensures
        r@.len() == 2,
        r@[0] matches ServerBound::Handshake(protocol, address, port, next_state) && protocol
            == VarInt(PROTOCOL_VERSION) && address.0@ == "bruh"@ && port == SERVER_PORT
            && next_state == VarInt(2),
        r@[1] matches ServerBound::LoginStart(name) && name.0@ == username@,
{
    let mut packets: Vec<ServerBound> = Vec::new();
    packets.push(
        ServerBound::Handshake(
            VarInt(PROTOCOL_VERSION),
            MString("bruh".to_owned()),
            SERVER_PORT,
            VarInt(2),
        ),
    );
    packets.push(ServerBound::LoginStart(MString(username)));
    packets
}

/// The request for statistics that goes out every second.
pub fn statistics_request() -> (r: ServerBound)
    ensures
        r == ServerBound::ClientStatus(VarInt(1)),
{
    ServerBound::ClientStatus(VarInt(1))
}

impl Settings {
    /// Whether attacks are switched on: whether the attack speed is not
    /// zero.
    pub fn attacks(&self) -> (r: bool)
        ensures
            r == !self.attack_speed.zero(),
    {
        !self.attack_speed.is_zero()
    }
}

impl State {
    /// The state at the start of a session, holding the slot `weapon`.
    pub fn new(weapon: u8) -> (r: State)
        ensures
            !r.shutdown,
            r.my_entity_id is None,
            r.my_pos == (Double(0), Double(0), Double(0)),
            r.mobs@ == Map::<i64, Mob>::empty(),
            forall|i: int| 0 <= i < 9 ==> r.hotbar@[i] is NotPresent,
            !r.sneaking,
            r.held_item == weapon,
            r.food == float_of_int(20),
            r.initial_statistics@.len() == 0,
            r.statistics@.len() == 0,
    {
        State {
            shutdown: false,
            my_entity_id: None,
            my_pos: (Double(0), Double(0), Double(0)),
            mobs: HashMap::new(),
            hotbar: [Slot::NotPresent; 9],
            sneaking: false,
            held_item: weapon,
            food: Float::from_int(20),
            initial_statistics: Vec::new(),
            statistics: Vec::new(),
        }
    }

    /// What the equip and sneak tick sends: the weapon slot where the held
    /// slot differs from it, then, once the player's entity id is known and
    /// the sneaking differs from what is wanted, the start or the stop of
    /// sneaking.
    pub open spec fn sync_packets(self, settings: Settings) -> Seq<ServerBound> {
        let equip = if self.held_item != settings.weapon {
            seq![ServerBound::HeldItemChange(settings.weapon as i16)]
        } else {
            Seq::empty()
        };
        let sneak = match self.my_entity_id {
            Some(id) => if settings.sneak == self.sneaking {
                Seq::empty()
            } else if settings.sneak {
                seq![ServerBound::EntityAction(id, VarInt(0), VarInt(0))]
            } else {
                seq![ServerBound::EntityAction(id, VarInt(1), VarInt(1))]
            },
            None => Seq::empty(),
        };
        equip + sneak
    }

    /// The equip and sneak tick: brings the held slot and the sneaking in
    /// line with the settings, and says what to send for it.
    pub fn sync_tick(&mut self, settings: &Settings) -> (r: Vec<ServerBound>)
        ensures
            r@ == old(self).sync_packets(*settings),
            final(self).held_item == settings.weapon,
            final(self).sneaking == (if old(self).my_entity_id is Some {
                settings.sneak
            } else {
                old(self).sneaking
            }),
            final(self).shutdown == old(self).shutdown,
            final(self).my_entity_id == old(self).my_entity_id,
            final(self).my_pos == old(self).my_pos,
            final(self).mobs == old(self).mobs,
            final(self).hotbar == old(self).hotbar,
            final(self).food == old(self).food,
            final(self).initial_statistics == old(self).initial_statistics,
            final(self).statistics == old(self).statistics,
    {
        let mut packets: Vec<ServerBound> = Vec::new();
        if self.held_item != settings.weapon {
            packets.push(ServerBound::HeldItemChange(settings.weapon as i16));
            self.held_item = settings.weapon;
        }
        if let Some(my_entity_id) = self.my_entity_id {
            if settings.sneak != self.sneaking {
                if settings.sneak {
                    packets.push(ServerBound::EntityAction(my_entity_id, VarInt(0), VarInt(0)));
                } else {
                    packets.push(ServerBound::EntityAction(my_entity_id, VarInt(1), VarInt(1)));
                }
                self.sneaking = settings.sneak;
            }
        }
        assert(packets@ =~= old(self).sync_packets(*settings));
        packets
    }

    /// The first hotbar slot, from slot `from` on, that holds an item which
    /// may be eaten.
    pub open spec fn food_slot(self, settings: Settings, from: int) -> Option<int>
        decreases 9 - from,
    {
        if from < 0 || from >= 9 {
            None
        } else {
            match self.hotbar@[from] {
                Slot::Present(id, _) if settings.eat_food@.contains(id.0) => Some(from),
                _ => self.food_slot(settings, from + 1),
            }
        }
    }

    /// True when the food level is below the level at which the bot eats.
    pub open spec fn hungry(self, settings: Settings) -> bool {
        self.food.less_than(settings.eat_at)
    }

    /// The auto-eat tick. A hungry bot with food in its hotbar eats the
    /// first such item: it selects the item's slot and uses the item, and,
    /// once the meal is over, finishes and selects the weapon again. One
    /// tick is at most one meal.
    pub fn eat_tick(&self, settings: &Settings) -> (r: Option<Meal>)
        ensures
            r is Some <==> self.hungry(*settings) && self.food_slot(*settings, 0) is Some,
            r matches Some(meal) ==> meal.begin@ == seq![
                ServerBound::HeldItemChange(self.food_slot(*settings, 0)->0 as i16),
                ServerBound::UseItem(VarInt(0)),
            ] && meal.finish@ == seq![
                ServerBound::PlayerDigging(VarInt(5), 0, 0),
                ServerBound::HeldItemChange(settings.weapon as i16),
            ],
    {
        if !self.food.lt(settings.eat_at) {
            return None;
        }
        let mut slot_id: usize = 0;
        while slot_id < 9
            invariant
                slot_id <= 9,
                self.hungry(*settings),
                self.food_slot(*settings, 0) == self.food_slot(*settings, slot_id as int),
            decreases 9 - slot_id,
        {
            if let Slot::Present(id, _number) = self.hotbar[slot_id] {
                if contains_id(&settings.eat_food, id.0) {
                    let mut begin: Vec<ServerBound> = Vec::new();
                    begin.push(ServerBound::HeldItemChange(slot_id as i16));
                    begin.push(ServerBound::UseItem(VarInt(0)));
                    let mut finish: Vec<ServerBound> = Vec::new();
                    finish.push(ServerBound::PlayerDigging(VarInt(5), 0, 0));
                    finish.push(ServerBound::HeldItemChange(settings.weapon as i16));
                    assert(begin@ =~= seq![
                        ServerBound::HeldItemChange(slot_id as i16),
                        ServerBound::UseItem(VarInt(0)),
                    ]);
                    assert(finish@ =~= seq![
                        ServerBound::PlayerDigging(VarInt(5), 0, 0),
                        ServerBound::HeldItemChange(settings.weapon as i16),
                    ]);
                    return Some(Meal { begin, finish });
                }
            }
            slot_id = slot_id + 1;
        }
        None
    }
}

/// A mob together with the square of its distance from the player.
#[derive(Debug, Clone, Copy, PartialEq, Eq)]
pub struct Target {
    pub mob: Mob,
    pub squared_distance: Double,
}

/// True when the mob at `i` is of a type that may be attacked.
pub open spec fn eligible(targets: Seq<Target>, allowed: Seq<i64>, i: int) -> bool {
    0 <= i < targets.len() && allowed.contains(targets[i].mob.entity_type.0)
}

/// The mob that a walk through `targets` holds as the nearest at its end:
/// the first eligible mob, replaced by each later eligible mob that is
/// strictly nearer than the one held.
pub open spec fn nearest(targets: Seq<Target>, allowed: Seq<i64>) -> Option<int>
    decreases targets.len(),
{
    if targets.len() == 0 {
        None
    } else {
        let last = targets.len() - 1;
        let before = nearest(targets.drop_last(), allowed);
        if !allowed.contains(targets[last].mob.entity_type.0) {
            before
        } else {
            match before {
                Some(held) => if targets[last].squared_distance.less_than(
                    targets[held].squared_distance,
                ) {
                    Some(last)
                } else {
                    Some(held)
                },
                None => Some(last),
            }
        }
    }
}

/// The mob to attack: the nearest eligible mob, unless it is sixteen or more
/// away in the square.
pub open spec fn target_of(targets: Seq<Target>, allowed: Seq<i64>) -> Option<int> {
    match nearest(targets, allowed) {
        Some(held) => if targets[held].squared_distance.at_least(Double(REACH_SQUARED)) {
            None
        } else {
            Some(held)
        },
        None => None,
    }
}

/// The walk holds a mob as soon as one is eligible, and the mob it holds is
/// eligible and no farther than any other eligible mob; of several at the
/// same least distance it holds the first. This is stated of distances that
/// are numbers.
pub proof fn lemma_nearest_is_least(targets: Seq<Target>, allowed: Seq<i64>)
    requires
        forall|i: int| eligible(targets, allowed, i) ==> !targets[i].squared_distance.nan(),
    ensures
        nearest(targets, allowed) is None <==> forall|i: int| !eligible(targets, allowed, i),
        nearest(targets, allowed) matches Some(held) ==> {
            &&& eligible(targets, allowed, held)
            &&& forall|i: int|
                eligible(targets, allowed, i) ==> targets[held].squared_distance.rank()
                    <= targets[i].squared_distance.rank()
            &&& forall|i: int|
                eligible(targets, allowed, i) && i < held ==> targets[held].squared_distance.rank()
                    < targets[i].squared_distance.rank()
        },
    decreases targets.len(),
{
    if targets.len() > 0 {
        let front = targets.drop_last();
        let last = targets.len() - 1;
        assert forall|i: int| eligible(front, allowed, i) implies !front[i].squared_distance.nan() by {
            assert(eligible(targets, allowed, i));
        }
        lemma_nearest_is_least(front, allowed);
        assert forall|i: int| eligible(targets, allowed, i) && i < last implies eligible(
            front,
            allowed,
            i,
        ) by {
            assert(front[i] == targets[i]);
        }
        assert forall|i: int| eligible(front, allowed, i) implies eligible(targets, allowed, i) by {
            assert(front[i] == targets[i]);
        }
        if nearest(targets, allowed) is None {
            assert forall|i: int| !eligible(targets, allowed, i) by {
                if eligible(targets, allowed, i) && i < last {
                    assert(eligible(front, allowed, i));
                }
            }
        }
        if eligible(targets, allowed, last) {
            assert(!targets[last].squared_distance.nan());
        }
    }
}

/// No mob is attacked from sixteen or more away in the square, and where
/// none is attacked although one is eligible, the nearest is that far.
pub proof fn lemma_target_in_reach(targets: Seq<Target>, allowed: Seq<i64>)
    requires
        forall|i: int| eligible(targets, allowed, i) ==> !targets[i].squared_distance.nan(),
    ensures
        target_of(targets, allowed) matches Some(held) ==> nearest(targets, allowed) == Some(held)
            && targets[held].squared_distance.rank() < Double(REACH_SQUARED).rank(),
        target_of(targets, allowed) is None ==> forall|i: int|
            eligible(targets, allowed, i) ==> targets[i].squared_distance.rank() >= Double(
                REACH_SQUARED,
            ).rank(),
{
    lemma_nearest_is_least(targets, allowed);
}

/// Picks the mob to attack.
pub fn select_target(targets: &Vec<Target>, attack_mobs: &Vec<i64>) -> (r: Option<usize>)
    ensures
        r is Some <==> target_of(targets@, attack_mobs@) is Some,
        r matches Some(i) ==> target_of(targets@, attack_mobs@) == Some(i as int) && i
            < targets@.len(),
{
    let mut held: Option<usize> = None;
    let mut i: usize = 0;
    assert(targets@.take(0) =~= Seq::<Target>::empty());
    while i < targets.len()
        invariant
            i <= targets@.len(),
            held matches Some(h) ==> h < i,
            held is Some <==> nearest(targets@.take(i as int), attack_mobs@) is Some,
            held matches Some(h) ==> nearest(targets@.take(i as int), attack_mobs@) == Some(
                h as int,
            ),
        decreases targets@.len() - i,
    {
        proof {
            assert(targets@.take(i + 1).drop_last() =~= targets@.take(i as int));
        }
        if contains_id(attack_mobs, targets[i].mob.entity_type.0) {
            match held {
                Some(h) => {
                    if targets[i].squared_distance.lt(targets[h].squared_distance) {
                        held = Some(i);
                    }
                },
                None => {
                    held = Some(i);
                },
            }
        }
        i = i + 1;
    }
    assert(targets@.take(i as int) =~= targets@);
    match held {
        Some(h) => {
            if targets[h].squared_distance.ge(Double(REACH_SQUARED)) {
                None
            } else {
                Some(h)
            }
        },
        None => None,
    }
}

/// The hand that swings after `hand` has: the two hands, 0 and 1, take
/// turns.
pub fn next_hand(hand: i64) -> (r: i64)
    ensures
        r == (if hand == 0 {
            1int
        } else {
            0int
        }),
        0 <= hand <= 1 ==> r == (hand + 1) % 2,
{
    if hand == 0 {
        1
    } else {
        0
    }
}

/// What an attack sends, in order: where the player stands and looks, the
/// attack on the target, and the swing of `hand`. `eyes` is the player's
/// position at eye height, and the player counts as standing on the ground.
pub fn attack_packets(
    eyes: (Double, Double, Double),
    yaw: Float,
    pitch: Float,
    target: VarInt,
    sneak: bool,
    hand: i64,
) -> (r: Vec<ServerBound>)
    ensures
        r@ == seq![
            ServerBound::PlayerPositionAndRotation(eyes.0, eyes.1, eyes.2, yaw, pitch, true),
            ServerBound::InteractEntity(target, VarInt(1), sneak),
            ServerBound::Animation(VarInt(hand)),
        ],
{
    let mut packets: Vec<ServerBound> = Vec::new();
    packets.push(ServerBound::PlayerPositionAndRotation(eyes.0, eyes.1, eyes.2, yaw, pitch, true));
    packets.push(ServerBound::InteractEntity(target, VarInt(1), sneak));
    packets.push(ServerBound::Animation(VarInt(hand)));
    assert(packets@ =~= seq![
        ServerBound::PlayerPositionAndRotation(eyes.0, eyes.1, eyes.2, yaw, pitch, true),
        ServerBound::InteractEntity(target, VarInt(1), sneak),
        ServerBound::Animation(VarInt(hand)),
    ]);
    packets
}

/// How a task of the bot came to fail.
#[derive(Debug, Clone, Copy, PartialEq, Eq, Structural)]
pub enum Failure {
    /// The connection was closed while the task wrote to it.
    BrokenPipe,
    /// The connection ended while the task read from it.
    UnexpectedEof,
    /// Anything else, a disconnect by the server among it.
    Other,
}

/// What is to be done about a failed task. Whatever the answer, the one who
/// runs the bot is told once that the session is over.
#[derive(Debug, Clone, Copy, PartialEq, Eq, Structural)]
pub struct Verdict {
    /// Whether the failure goes to the log.
    pub log: bool,
    /// Whether the connection is to be closed in both directions.
    pub close: bool,
}

/// What the bot does in answer to a packet.
#[derive(Debug, PartialEq, Eq)]
pub enum Action {
    /// Send the packet.
    Send(ServerBound),
    /// Show the health and the food level.
    Status { health: Float, food: VarInt },
    /// The health has fallen below the least that the user accepts: say so,
    /// and ask for the session to end.
    LowHealth { health: Float, min_health: Float },
    /// A tracked mob has moved by `delta`, in the protocol's steps, from
    /// `from`: work out where it is now and place it there.
    MoveMob { entity_id: VarInt, from: (Double, Double, Double), delta: (i16, i16, i16) },
    /// Show the kills since the first statistics, by mob type; with none to
    /// show, say that there is nothing yet.
    Statistics(Vec<(VarInt, i128)>),
    /// The server has ended the session, for the reason given.
    Kicked(MString),
}

/// An action, with strings and sequences as mathematical values.
pub enum ActionView {
    Send(ServerBound),
    Status { health: Float, food: VarInt },
    LowHealth { health: Float, min_health: Float },
    MoveMob { entity_id: VarInt, from: (Double, Double, Double), delta: (i16, i16, i16) },
    Statistics(Seq<(VarInt, i128)>),
    Kicked(Seq<char>),
}

impl View for Action {
    type V = ActionView;

    open spec fn view(&self) -> ActionView {
        match self {
            Action::Send(packet) => ActionView::Send(*packet),
            Action::Status { health, food } => ActionView::Status { health: *health, food: *food },
            Action::LowHealth { health, min_health } => ActionView::LowHealth {
                health: *health,
                min_health: *min_health,
            },
            Action::MoveMob { entity_id, from, delta } => ActionView::MoveMob {
                entity_id: *entity_id,
                from: *from,
                delta: *delta,
            },
            Action::Statistics(kills) => ActionView::Statistics(kills@),
            Action::Kicked(reason) => ActionView::Kicked(reason.0@),
        }
    }
}

/// The views of `actions`, in order.
pub open spec fn action_views(actions: Seq<Action>) -> Seq<ActionView> {
    Seq::new(actions.len(), |i: int| actions[i]@)
}

/// The place of the first entry of `list` with the category `category` and
/// the id `id`.
pub open spec fn entry_of(list: Seq<(VarInt, VarInt, VarInt)>, category: i64, id: i64) -> Option<
    int,
>
    decreases list.len(),
{
    if list.len() == 0 {
        None
    } else {
        match entry_of(list.drop_last(), category, id) {
            Some(i) => Some(i),
            None => if list.last().0.0 == category && list.last().1.0 == id {
                Some(list.len() - 1)
            } else {
                None
            },
        }
    }
}

/// The statistics `list` after the server has reported `entry`: a kill
/// count replaces the value of the first entry with its category and id.
/// Other categories, and kill counts that `list` has no entry for, change
/// nothing.
pub open spec fn with_entry(
    list: Seq<(VarInt, VarInt, VarInt)>,
    entry: (VarInt, VarInt, VarInt),
) -> Seq<(VarInt, VarInt, VarInt)> {
    if entry.0.0 != KILLED {
        list
    } else {
        match entry_of(list, entry.0.0, entry.1.0) {
            Some(i) => list.update(i, (list[i].0, list[i].1, entry.2)),
            None => list,
        }
    }
}

/// The statistics `list` after the server has reported `entries`, one after
/// the other.
pub open spec fn with_entries(
    list: Seq<(VarInt, VarInt, VarInt)>,
    entries: Seq<(VarInt, VarInt, VarInt)>,
) -> Seq<(VarInt, VarInt, VarInt)>
    decreases entries.len(),
{
    if entries.len() == 0 {
        list
    } else {
        with_entry(with_entries(list, entries.drop_last()), entries.last())
    }
}

/// The kills since the first statistics: for each kill count of `current`,
/// in order, the mob type and the count less the first count of the same
/// mob type, where that is not zero. A kill count without a first count is
/// left out.
pub open spec fn kills_since(
    current: Seq<(VarInt, VarInt, VarInt)>,
    first: Seq<(VarInt, VarInt, VarInt)>,
) -> Seq<(VarInt, i128)>
    decreases current.len(),
{
    if current.len() == 0 {
        Seq::empty()
    } else {
        let entry = current.last();
        let before = kills_since(current.drop_last(), first);
        if entry.0.0 != KILLED {
            before
        } else {
            match entry_of(first, entry.0.0, entry.1.0) {
                Some(i) => if entry.2.0 - first[i].2.0 != 0 {
                    before.push((entry.1, (entry.2.0 - first[i].2.0) as i128))
                } else {
                    before
                },
                None => before,
            }
        }
    }
}

/// Finds the first entry of `list` with the category `category` and the id
/// `id`.
pub fn find_entry(list: &Vec<(VarInt, VarInt, VarInt)>, category: i64, id: i64) -> (r: Option<
    usize,
>)
    ensures
        r is Some <==> entry_of(list@, category, id) is Some,
        r matches Some(i) ==> entry_of(list@, category, id) == Some(i as int) && i < list@.len(),
{
    let mut i: usize = 0;
    assert(list@.take(0) =~= Seq::<(VarInt, VarInt, VarInt)>::empty());
    while i < list.len()
        invariant
            i <= list@.len(),
            entry_of(list@.take(i as int), category, id) is None,
        decreases list@.len() - i,
    {
        proof {
            assert(list@.take(i + 1).drop_last() =~= list@.take(i as int));
        }
        if list[i].0.0 == category && list[i].1.0 == id {
            proof {
                lemma_entry_of_prefix(list@, i + 1, category, id);
            }
            return Some(i);
        }
        i = i + 1;
    }
    assert(list@.take(i as int) =~= list@);
    None
}

/// An entry found in a front part of a list is the entry found in the list.
proof fn lemma_entry_of_prefix(
    list: Seq<(VarInt, VarInt, VarInt)>,
    n: int,
    category: i64,
    id: i64,
)
    requires
        0 <= n <= list.len(),
        entry_of(list.take(n), category, id) is Some,
    ensures
        entry_of(list, category, id) == entry_of(list.take(n), category, id),
    decreases list.len() - n,
{
    if n < list.len() {
        assert(list.take(n + 1).drop_last() =~= list.take(n));
        lemma_entry_of_prefix(list, n + 1, category, id);
    } else {
        assert(list.take(n) =~= list);
    }
}

/// A copy of `list`.
fn copy_entries(list: &Vec<(VarInt, VarInt, VarInt)>) -> (r: Vec<(VarInt, VarInt, VarInt)>)
    ensures
        r@ == list@,
{
    let mut out: Vec<(VarInt, VarInt, VarInt)> = Vec::new();
    let mut i: usize = 0;
    while i < list.len()
        invariant
            i <= list@.len(),
            out@ == list@.take(i as int),
        decreases list@.len() - i,
    {
        out.push(list[i]);
        assert(out@ =~= list@.take(i + 1));
        i = i + 1;
    }
    assert(list@.take(i as int) =~= list@);
    out
}

impl State {
    /// The tracked mobs, each once, in no particular order.
    pub fn mob_list(&self) -> (r: Vec<(i64, Mob)>)
        ensures
            r@.len() == self.mobs@.len(),
            forall|i: int|
                0 <= i < r@.len() ==> self.mobs@.contains_key(#[trigger] r@[i].0)
                    && self.mobs@[r@[i].0] == r@[i].1,
            forall|i: int, j: int| 0 <= i < j < r@.len() ==> r@[i].0 != r@[j].0,
            forall|k: i64|
                self.mobs@.contains_key(k) ==> exists|i: int|
                    0 <= i < r@.len() && #[trigger] r@[i].0 == k,
    {
        let mut out: Vec<(i64, Mob)> = Vec::new();
        let ghost all = vstd::std_specs::hash::spec_hash_map_iter(&self.mobs).remaining();
        for entry in iter: self.mobs.iter()
            invariant
                iter.seq() == all,
                all == vstd::std_specs::hash::spec_hash_map_iter(&self.mobs).remaining(),
                all.no_duplicates(),
                out@.len() == iter.index(),
                forall|i: int|
                    0 <= i < out@.len() ==> (#[trigger] out@[i]).0 == *all[i].0 && out@[i].1
                        == *all[i].1,
        {
            let (key, mob) = entry;
            out.push((*key, *mob));
        }
        proof {
            assert forall|i: int, j: int| 0 <= i < j < out@.len() implies out@[i].0
                != out@[j].0 by {
                assert(self.mobs@.contains_key(*all[i].0));
                assert(self.mobs@.contains_key(*all[j].0));
                if out@[i].0 == out@[j].0 {
                    assert(*all[i].1 == *all[j].1);
                    assert(all[i] == all[j]);
                }
            }
            assert forall|k: i64| self.mobs@.contains_key(k) implies exists|i: int|
                0 <= i < out@.len() && #[trigger] out@[i].0 == k by {
                assert(all.contains((&k, &self.mobs@[k])));
                let i = choose|i: int| 0 <= i < all.len() && all[i] == (&k, &self.mobs@[k]);
                assert(out@[i].0 == k);
            }
        }
        out
    }

    /// Places the mob `entity_id` at `pos`, if it is tracked.
    pub fn place_mob(&mut self, entity_id: VarInt, pos: (Double, Double, Double))
        ensures
            final(self).mobs@ == (if old(self).mobs@.contains_key(entity_id.0) {
                old(self).mobs@.insert(
                    entity_id.0,
                    Mob { pos: pos, ..old(self).mobs@[entity_id.0] },
                )
            } else {
                old(self).mobs@
            }),
            final(self).shutdown == old(self).shutdown,
            final(self).my_entity_id == old(self).my_entity_id,
            final(self).my_pos == old(self).my_pos,
            final(self).hotbar == old(self).hotbar,
            final(self).sneaking == old(self).sneaking,
            final(self).held_item == old(self).held_item,
            final(self).food == old(self).food,
            final(self).initial_statistics == old(self).initial_statistics,
            final(self).statistics == old(self).statistics,
    {
        let found = match self.mobs.get(&entity_id.0) {
            Some(mob) => Some(*mob),
            None => None,
        };
        if let Some(mob) = found {
            self.mobs.insert(entity_id.0, Mob { pos: pos, ..mob });
        }
    }

    /// A task of the bot has failed. While the session is already ending, a
    /// closed connection is what was to be expected and stays out of the
    /// log. Otherwise the failure is logged, the session is marked as
    /// ending, and the connection is closed.
    pub fn task_failed(&mut self, failure: Failure) -> (r: Verdict)
        ensures
            r.log == (!old(self).shutdown || failure == Failure::Other),
            r.close == !old(self).shutdown,
            final(self).shutdown,
            final(self).my_entity_id == old(self).my_entity_id,
            final(self).my_pos == old(self).my_pos,
            final(self).mobs == old(self).mobs,
            final(self).hotbar == old(self).hotbar,
            final(self).sneaking == old(self).sneaking,
            final(self).held_item == old(self).held_item,
            final(self).food == old(self).food,
            final(self).initial_statistics == old(self).initial_statistics,
            final(self).statistics == old(self).statistics,
    {
        if self.shutdown {
            let quiet = match failure {
                Failure::BrokenPipe => true,
                Failure::UnexpectedEof => true,
                Failure::Other => false,
            };
            Verdict { log: !quiet, close: false }
        } else {
            self.shutdown = true;
            Verdict { log: true, close: true }
        }
    }
}

/// The registry `mobs` without the entities `ids`.
pub open spec fn without(mobs: Map<i64, Mob>, ids: Seq<VarInt>) -> Map<i64, Mob>
    decreases ids.len(),
{
    if ids.len() == 0 {
        mobs
    } else {
        without(mobs, ids.drop_last()).remove(ids.last().0)
    }
}

/// True when `id` is among `ids`.
pub open spec fn names(ids: Seq<VarInt>, id: i64) -> bool {
    exists|i: int| 0 <= i < ids.len() && (#[trigger] ids[i]).0 == id
}

/// After the removal, exactly the entities that were tracked and are not
/// among `ids` are tracked, each as it was.
pub proof fn lemma_without(mobs: Map<i64, Mob>, ids: Seq<VarInt>)
    ensures
        forall|k: i64|
            #[trigger] without(mobs, ids).contains_key(k) <==> mobs.contains_key(k) && !names(
                ids,
                k,
            ),
        forall|k: i64|
            without(mobs, ids).contains_key(k) ==> #[trigger] without(mobs, ids)[k] == mobs[k],
    decreases ids.len(),
{
    if ids.len() > 0 {
        let front = ids.drop_last();
        lemma_without(mobs, front);
        assert forall|k: i64| names(ids, k) <==> names(front, k) || ids.last().0 == k by {
            if names(front, k) {
                let i = choose|i: int| 0 <= i < front.len() && (#[trigger] front[i]).0 == k;
                assert(ids[i].0 == k);
            }
            if ids.last().0 == k {
                assert(ids[ids.len() - 1].0 == k);
            }
            if names(ids, k) {
                let i = choose|i: int| 0 <= i < ids.len() && (#[trigger] ids[i]).0 == k;
                if i < front.len() {
                    assert(front[i].0 == k);
                }
            }
        }
        let less = without(mobs, front);
        assert(without(mobs, ids) == less.remove(ids.last().0));
        assert forall|k: i64| #[trigger]
            without(mobs, ids).contains_key(k) <==> mobs.contains_key(k) && !names(ids, k) by {
            assert(less.contains_key(k) <==> mobs.contains_key(k) && !names(front, k));
        }
        assert forall|k: i64| without(mobs, ids).contains_key(k) implies #[trigger] without(
            mobs,
            ids,
        )[k] == mobs[k] by {
            assert(less.contains_key(k));
            assert(less[k] == mobs[k]);
        }
    } else {
        assert forall|k: i64| !names(ids, k) by {}
    }
}

/// The registry after the packet `packet`: a spawn tracks the mob anew, a
/// removal notice drops the mobs it names, and a teleport moves a tracked
/// mob.
pub open spec fn mobs_after(mobs: Map<i64, Mob>, packet: ClientBoundView) -> Map<i64, Mob> {
    match packet {
        ClientBoundView::SpawnLivingEntity(id, _, kind, x, y, z, _, _, _, _, _, _) => mobs.insert(
            id.0,
            Mob { entity_id: id, entity_type: kind, pos: (x, y, z) },
        ),
        ClientBoundView::DestroyEntities(ids) => without(mobs, ids),
        ClientBoundView::EntityTeleport(id, x, y, z, _, _, _) => if mobs.contains_key(id.0) {
            mobs.insert(id.0, Mob { pos: (x, y, z), ..mobs[id.0] })
        } else {
            mobs
        },
        _ => mobs,
    }
}

/// The hotbar after the packet `packet`: an update of the slots 36 to 44 of
/// the window 0 sets the hotbar slot 0 to 8.
pub open spec fn hotbar_after(hotbar: Seq<Slot>, packet: ClientBoundView) -> Seq<Slot> {
    match packet {
        ClientBoundView::SetSlot(window, slot, data) => if window == 0 && 36 <= slot <= 44 {
            hotbar.update(slot - 36, data)
        } else {
            hotbar
        },
        _ => hotbar,
    }
}

impl State {
    /// True when `self` is what `before` becomes by the packet `packet`.
    pub open spec fn follows(self, before: State, packet: ClientBoundView) -> bool {
        &&& self.shutdown == before.shutdown
        &&& self.sneaking == before.sneaking
        &&& self.held_item == before.held_item
        &&& self.my_entity_id == (match packet {
            ClientBoundView::JoinGame(entity) => Some(VarInt(entity as i64)),
            _ => before.my_entity_id,
        })
        &&& self.my_pos == (match packet {
            ClientBoundView::PlayerPositionAndLook(x, y, z, _, _, _, _) => (x, y, z),
            _ => before.my_pos,
        })
        &&& self.mobs@ == mobs_after(before.mobs@, packet)
        &&& self.hotbar@ == hotbar_after(before.hotbar@, packet)
        &&& self.food == (match packet {
            ClientBoundView::UpdateHealth(_, food, _) => float_of_int(food.0 as int),
            _ => before.food,
        })
        &&& self.initial_statistics@ == (match packet {
            ClientBoundView::Statistics(entries) => if before.initial_statistics@.len() == 0 {
                entries
            } else {
                before.initial_statistics@
            },
            _ => before.initial_statistics@,
        })
        &&& self.statistics@ == (match packet {
            ClientBoundView::Statistics(entries) => if before.initial_statistics@.len() == 0 {
                entries
            } else {
                with_entries(before.statistics@, entries)
            },
            _ => before.statistics@,
        })
    }

    /// What the bot does in answer to the packet `packet`.
    pub open spec fn reaction(self, settings: Settings, packet: ClientBoundView) -> Seq<
        ActionView,
    > {
        match packet {
            ClientBoundView::KeepAlive(number) => seq![
                ActionView::Send(ServerBound::KeepAlive(number)),
            ],
            ClientBoundView::JoinGame(_) => seq![
                ActionView::Send(ServerBound::HeldItemChange(settings.weapon as i16)),
            ],
            ClientBoundView::UpdateHealth(health, food, _) => if health.less_than(
                settings.min_health,
            ) {
                seq![
                    ActionView::Status { health, food },
                    ActionView::LowHealth { health, min_health: settings.min_health },
                ]
            } else {
                seq![ActionView::Status { health, food }]
            },
            ClientBoundView::PlayerPositionAndLook(_, _, _, _, _, _, teleport) => seq![
                ActionView::Send(ServerBound::TeleportConfirm(teleport)),
            ],
            ClientBoundView::EntityPosition(id, dx, dy, dz, _) => if self.mobs@.contains_key(
                id.0,
            ) {
                seq![
                    ActionView::MoveMob {
                        entity_id: id,
                        from: self.mobs@[id.0].pos,
                        delta: (dx, dy, dz),
                    },
                ]
            } else {
                Seq::empty()
            },
            ClientBoundView::PlayDisconnect(reason) => seq![ActionView::Kicked(reason)],
            ClientBoundView::LoginDisconnect(reason) => seq![ActionView::Kicked(reason)],
            ClientBoundView::Statistics(entries) => if self.initial_statistics@.len() == 0 {
                seq![ActionView::Statistics(Seq::empty())]
            } else {
                seq![
                    ActionView::Statistics(
                        kills_since(
                            with_entries(self.statistics@, entries),
                            self.initial_statistics@,
                        ),
                    ),
                ]
            },
            _ => Seq::empty(),
        }
    }

    /// One action and nothing else.
    fn only(action: Action) -> (r: Vec<Action>)
        ensures
            action_views(r@) == seq![action@],
    {
        let mut actions: Vec<Action> = Vec::new();
        actions.push(action);
        assert(action_views(actions@) =~= seq![action@]);
        actions
    }

    /// No action.
    fn nothing() -> (r: Vec<Action>)
        ensures
            action_views(r@) == Seq::<ActionView>::empty(),
    {
        let actions: Vec<Action> = Vec::new();
        assert(action_views(actions@) =~= Seq::<ActionView>::empty());
        actions
    }

    fn on_update_health(&mut self, settings: &Settings, health: Float, food: VarInt) -> (r: Vec<
        Action,
    >)
        ensures
            final(self).follows(
                *old(self),
                ClientBoundView::UpdateHealth(health, food, arbitrary()),
            ),
            action_views(r@) == old(self).reaction(
                *settings,
                ClientBoundView::UpdateHealth(health, food, arbitrary()),
            ),
    {
        let mut actions: Vec<Action> = Vec::new();
        actions.push(Action::Status { health, food });
        self.food = Float::from_int(food.0);
        if health.lt(settings.min_health) {
            actions.push(Action::LowHealth { health, min_health: settings.min_health });
        }
        assert(action_views(actions@) =~= old(self).reaction(
            *settings,
            ClientBoundView::UpdateHealth(health, food, arbitrary()),
        ));
        actions
    }

    fn on_set_slot(&mut self, window: i8, slot: i16, data: Slot)
        ensures
            final(self).follows(*old(self), ClientBoundView::SetSlot(window, slot, data)),
    {
        if window == 0 && slot >= 36 && slot <= 44 {
            self.hotbar[slot as usize - 36] = data;
        }
    }

    fn on_destroy_entities(&mut self, ids: &Vec<VarInt>)
        ensures
            final(self).follows(*old(self), ClientBoundView::DestroyEntities(ids@)),
    {
        let mut i: usize = 0;
        assert(ids@.take(0) =~= Seq::<VarInt>::empty());
        while i < ids.len()
            invariant
                i <= ids@.len(),
                self.mobs@ == without(old(self).mobs@, ids@.take(i as int)),
                self.shutdown == old(self).shutdown,
                self.sneaking == old(self).sneaking,
                self.held_item == old(self).held_item,
                self.my_entity_id == old(self).my_entity_id,
                self.my_pos == old(self).my_pos,
                self.hotbar == old(self).hotbar,
                self.food == old(self).food,
                self.initial_statistics == old(self).initial_statistics,
                self.statistics == old(self).statistics,
            decreases ids@.len() - i,
        {
            proof {
                assert(ids@.take(i + 1).drop_last() =~= ids@.take(i as int));
            }
            self.mobs.remove(&ids[i].0);
            i = i + 1;
        }
        assert(ids@.take(i as int) =~= ids@);
    }

    fn on_entity_position(&self, id: VarInt, dx: i16, dy: i16, dz: i16) -> (r: Vec<Action>)
        ensures
            action_views(r@) == self.reaction(
                arbitrary(),
                ClientBoundView::EntityPosition(id, dx, dy, dz, arbitrary()),
            ),
    {
        match self.mobs.get(&id.0) {
            Some(mob) => Self::only(
                Action::MoveMob { entity_id: id, from: mob.pos, delta: (dx, dy, dz) },
            ),
            None => Self::nothing(),
        }
    }

    fn on_statistics(&mut self, entries: Vec<(VarInt, VarInt, VarInt)>) -> (r: Vec<Action>)
        ensures
            final(self).follows(*old(self), ClientBoundView::Statistics(entries@)),
            action_views(r@) == old(self).reaction(
                arbitrary(),
                ClientBoundView::Statistics(entries@),
            ),
    {
        if self.initial_statistics.len() == 0 {
            self.initial_statistics = copy_entries(&entries);
            self.statistics = entries;
            let none: Vec<(VarInt, i128)> = Vec::new();
            return Self::only(Action::Statistics(none));
        }
        let mut i: usize = 0;
        assert(entries@.take(0) =~= Seq::<(VarInt, VarInt, VarInt)>::empty());
        while i < entries.len()
            invariant
                i <= entries@.len(),
                self.statistics@ == with_entries(old(self).statistics@, entries@.take(i as int)),
                self.shutdown == old(self).shutdown,
                self.sneaking == old(self).sneaking,
                self.held_item == old(self).held_item,
                self.my_entity_id == old(self).my_entity_id,
                self.my_pos == old(self).my_pos,
                self.mobs == old(self).mobs,
                self.hotbar == old(self).hotbar,
                self.food == old(self).food,
                self.initial_statistics == old(self).initial_statistics,
            decreases entries@.len() - i,
        {
            proof {
                assert(entries@.take(i + 1).drop_last() =~= entries@.take(i as int));
            }
            let entry = entries[i];
            if entry.0.0 == KILLED {
                if let Some(at) = find_entry(&self.statistics, entry.0.0, entry.1.0) {
                    let old_entry = self.statistics[at];
                    self.statistics[at] = (old_entry.0, old_entry.1, entry.2);
                }
            }
            i = i + 1;
        }
        assert(entries@.take(i as int) =~= entries@);
        let kills = Self::kills(&self.statistics, &self.initial_statistics);
        Self::only(Action::Statistics(kills))
    }

    /// The kills since the first statistics.
    pub fn kills(
        current: &Vec<(VarInt, VarInt, VarInt)>,
        first: &Vec<(VarInt, VarInt, VarInt)>,
    ) -> (r: Vec<(VarInt, i128)>)
        ensures
            r@ == kills_since(current@, first@),
    {
        let mut out: Vec<(VarInt, i128)> = Vec::new();
        let mut i: usize = 0;
        assert(current@.take(0) =~= Seq::<(VarInt, VarInt, VarInt)>::empty());
        while i < current.len()
            invariant
                i <= current@.len(),
                out@ == kills_since(current@.take(i as int), first@),
            decreases current@.len() - i,
        {
            proof {
                assert(current@.take(i + 1).drop_last() =~= current@.take(i as int));
            }
            let entry = current[i];
            if entry.0.0 == KILLED {
                if let Some(at) = find_entry(first, entry.0.0, entry.1.0) {
                    let difference: i128 = entry.2.0 as i128 - first[at].2.0 as i128;
                    if difference != 0 {
                        out.push((entry.1, difference));
                    }
                }
            }
            i = i + 1;
        }
        assert(current@.take(i as int) =~= current@);
        out
    }

    /// Takes in one packet from the server: the state moves on as `follows`
    /// says, and the actions that come back are the bot's `reaction`.
    pub fn handle_packet(&mut self, settings: &Settings, packet: ClientBound) -> (r: Vec<Action>)
        ensures
            final(self).follows(*old(self), packet@),
            action_views(r@) == old(self).reaction(*settings, packet@),
    {
        match packet {
            ClientBound::KeepAlive(number) => Self::only(
                Action::Send(ServerBound::KeepAlive(number)),
            ),
            ClientBound::JoinGame(entity) => {
                self.my_entity_id = Some(VarInt(entity as i64));
                Self::only(Action::Send(ServerBound::HeldItemChange(settings.weapon as i16)))
            },
            ClientBound::UpdateHealth(health, food, _) => self.on_update_health(
                settings,
                health,
                food,
            ),
            ClientBound::PlayerPositionAndLook(x, y, z, _, _, _, teleport) => {
                self.my_pos = (x, y, z);
                Self::only(Action::Send(ServerBound::TeleportConfirm(teleport)))
            },
            ClientBound::SpawnLivingEntity(entity_id, _, entity_type, x, y, z, _, _, _, _, _, _) => {
                self.mobs.insert(entity_id.0, Mob { entity_id, entity_type, pos: (x, y, z) });
                Self::nothing()
            },
            ClientBound::SetSlot(window, slot, data) => {
                self.on_set_slot(window, slot, data);
                Self::nothing()
            },
            ClientBound::DestroyEntities(ids) => {
                self.on_destroy_entities(&ids);
                Self::nothing()
            },
            ClientBound::EntityTeleport(entity_id, x, y, z, _, _, _) => {
                self.place_mob(entity_id, (x, y, z));
                Self::nothing()
            },
            ClientBound::EntityPosition(entity_id, dx, dy, dz, _) => self.on_entity_position(
                entity_id,
                dx,
                dy,
                dz,
            ),
            ClientBound::PlayDisconnect(reason) => Self::only(Action::Kicked(reason)),
            ClientBound::LoginDisconnect(reason) => Self::only(Action::Kicked(reason)),
            ClientBound::Statistics(entries) => self.on_statistics(entries),
            _ => Self::nothing(),
        }
    }
}

} // verus!
