use vstd::prelude::*;

verus! {

/// Cardinal directions.
#[derive(Debug, Clone, Copy, PartialEq, Eq, Hash, Structural)]
pub enum Direction {
    North,
    East,
    South,
    West,
}

/// Index of a direction: North 0, East 1, South 2, West 3.
pub open spec fn direction_index(d: Direction) -> nat {
    match d {
        Direction::North => 0,
        Direction::East => 1,
        Direction::South => 2,
        Direction::West => 3,
    }
}

/// The direction whose index is `i` modulo 4.
pub open spec fn direction_of(i: int) -> Direction {
    let r = i % 4;
    if r == 0 {
        Direction::North
    } else if r == 1 {
        Direction::East
    } else if r == 2 {
        Direction::South
    } else {
        Direction::West
    }
}

/// The display name of a direction.
pub open spec fn direction_name(d: Direction) -> Seq<char> {
    match d {
        Direction::North => "北"@,
        Direction::East => "东"@,
        Direction::South => "南"@,
        Direction::West => "西"@,
    }
}

/// The four directions in index order.
pub open spec fn all_directions() -> Seq<Direction> {
    seq![Direction::North, Direction::East, Direction::South, Direction::West]
}

impl Direction {
    /// The direction with index `i % 4`.
    pub fn from_index(i: usize) -> (d: Direction)
        ensures
            d == direction_of(i as int),
            direction_index(d) == i % 4,
    {
        let r = i % 4;
        if r == 0 {
            Direction::North
        } else if r == 1 {
            Direction::East
        } else if r == 2 {
            Direction::South
        } else {
            Direction::West
        }
    }

    /// The index of this direction.
    pub fn to_index(&self) -> (i: usize)
        ensures
            i == direction_index(*self),
    {
        match self {
            Direction::North => 0,
            Direction::East => 1,
            Direction::South => 2,
            Direction::West => 3,
        }
    }

    /// The display name of this direction.
    pub fn name(&self) -> (n: &'static str)
        ensures
            n@ == direction_name(*self),
    {
        match self {
            Direction::North => "北",
            Direction::East => "东",
            Direction::South => "南",
            Direction::West => "西",
        }
    }

    /// All four directions, in index order.
    pub fn all() -> (a: [Direction; 4])
        ensures
            a@ == all_directions(),
    {
        [Direction::North, Direction::East, Direction::South, Direction::West]
    }
}

/// A labeled action: one of the supported command types.
#[derive(Debug, Clone, Copy, PartialEq, Eq, Structural)]
pub enum Action {
    FaceNorth,
    FaceEast,
    FaceSouth,
    FaceWest,
    TurnRight,
    TurnLeft,
    TurnAround,
}

/// The direction reached by performing `a` while facing `current`.
pub open spec fn action_result(a: Action, current: Direction) -> Direction {
    match a {
        Action::FaceNorth => Direction::North,
        Action::FaceEast => Direction::East,
        Action::FaceSouth => Direction::South,
        Action::FaceWest => Direction::West,
        Action::TurnRight => direction_of(direction_index(current) + 1int),
        Action::TurnLeft => direction_of(direction_index(current) + 3int),
        Action::TurnAround => direction_of(direction_index(current) + 2int),
    }
}

/// The fixed direction a face action points to; turns have none.
pub open spec fn action_target(a: Action) -> Option<Direction> {
    match a {
        Action::FaceNorth => Some(Direction::North),
        Action::FaceEast => Some(Direction::East),
        Action::FaceSouth => Some(Direction::South),
        Action::FaceWest => Some(Direction::West),
        _ => None,
    }
}

impl Action {
    /// Apply this action given a current direction.
    pub fn apply(&self, current: Direction) -> (d: Direction)
        ensures
            d == action_result(*self, current),
            *self is FaceNorth ==> d == Direction::North,
            *self is FaceEast ==> d == Direction::East,
            *self is FaceSouth ==> d == Direction::South,
            *self is FaceWest ==> d == Direction::West,
            *self is TurnRight ==> direction_index(d) == (direction_index(current) + 1) % 4,
            *self is TurnLeft ==> direction_index(d) == (direction_index(current) + 3) % 4,
            *self is TurnAround ==> direction_index(d) == (direction_index(current) + 2) % 4,
    {
        match self {
            Action::FaceNorth => Direction::North,
            Action::FaceEast => Direction::East,
            Action::FaceSouth => Direction::South,
            Action::FaceWest => Direction::West,
            Action::TurnRight => Direction::from_index(current.to_index() + 1),
            Action::TurnLeft => Direction::from_index(current.to_index() + 3),
            Action::TurnAround => Direction::from_index(current.to_index() + 2),
        }
    }

    /// The target direction this action points to; `None` for turns, whose
    /// result depends on the current direction.
    pub fn target_direction(&self) -> (t: Option<Direction>)
        ensures
            t == action_target(*self),
            *self is FaceNorth ==> t == Some(Direction::North),
            *self is FaceEast ==> t == Some(Direction::East),
            *self is FaceSouth ==> t == Some(Direction::South),
            *self is FaceWest ==> t == Some(Direction::West),
            (*self is TurnRight || *self is TurnLeft || *self is TurnAround) ==> t is None,
    {
        match self {
            Action::FaceNorth => Some(Direction::North),
            Action::FaceEast => Some(Direction::East),
            Action::FaceSouth => Some(Direction::South),
            Action::FaceWest => Some(Direction::West),
            _ => None,
        }
    }
}

/// Each face action reaches the direction it names and points to it,
/// whatever the current direction; a right turn, a left turn and a turn
/// around advance the direction index by 1, 3 and 2 modulo 4.
pub proof fn lemma_action_results(current: Direction)
    ensures
        action_result(Action::FaceNorth, current) == Direction::North,
        action_result(Action::FaceEast, current) == Direction::East,
        action_result(Action::FaceSouth, current) == Direction::South,
        action_result(Action::FaceWest, current) == Direction::West,
        action_target(Action::FaceNorth) == Some(Direction::North),
        action_target(Action::FaceEast) == Some(Direction::East),
        action_target(Action::FaceSouth) == Some(Direction::South),
        action_target(Action::FaceWest) == Some(Direction::West),
        action_target(Action::TurnRight) is None,
        action_target(Action::TurnLeft) is None,
        action_target(Action::TurnAround) is None,
        direction_index(action_result(Action::TurnRight, current)) == (direction_index(current) + 1) % 4,
        direction_index(action_result(Action::TurnLeft, current)) == (direction_index(current) + 3) % 4,
        direction_index(action_result(Action::TurnAround, current)) == (direction_index(current) + 2) % 4,
{
}

/// `from_index` and `to_index` are inverse: every direction is recovered
/// from its index.
pub proof fn lemma_index_round_trip(d: Direction)
    ensures
        direction_of(direction_index(d) as int) == d,
        direction_index(d) < 4,
{
}

/// Reducing an index modulo 4 first does not change the direction.
pub proof fn lemma_index_of_direction(i: int)
    ensures
        direction_index(direction_of(i)) == i % 4,
        direction_of(i % 4) == direction_of(i),
{
}

/// Turning left undoes turning right, and turning right undoes turning left.
pub proof fn lemma_left_undoes_right(d: Direction)
    ensures
        action_result(Action::TurnLeft, action_result(Action::TurnRight, d)) == d,
        action_result(Action::TurnRight, action_result(Action::TurnLeft, d)) == d,
{
}

/// Turning around twice returns to the start.
pub proof fn lemma_turn_around_twice(d: Direction)
    ensures
        action_result(Action::TurnAround, action_result(Action::TurnAround, d)) == d,
{
}

/// Two right turns make a turn around, and so do two left turns.
pub proof fn lemma_two_turns_make_turn_around(d: Direction)
    ensures
        action_result(Action::TurnRight, action_result(Action::TurnRight, d))
            == action_result(Action::TurnAround, d),
        action_result(Action::TurnLeft, action_result(Action::TurnLeft, d))
            == action_result(Action::TurnAround, d),
{
}

/// Four right turns return to the start.
pub proof fn lemma_four_right_turns(d: Direction)
    ensures
        action_result(
            Action::TurnRight,
            action_result(
                Action::TurnRight,
                action_result(Action::TurnRight, action_result(Action::TurnRight, d)),
            ),
        ) == d,
{
}

/// An action has a target direction exactly when it is a face action, and a
/// face action reaches its target whatever the current direction.
pub proof fn lemma_target_is_result(a: Action, current: Direction)
    ensures
        action_target(a) is Some <==> !(a is TurnRight || a is TurnLeft || a is TurnAround),
        action_target(a) matches Some(t) ==> action_result(a, current) == t,
{
}

/// A turn never leaves the current direction unchanged.
pub proof fn lemma_turns_move(a: Action, current: Direction)
    requires
        a is TurnRight || a is TurnLeft || a is TurnAround,
    ensures
        action_result(a, current) != current,
{
}

/// A command string paired with its intended action.
#[derive(Debug, Clone)]
pub struct CommandExample {
    pub command: String,
    pub action: Action,
}

/// The training commands and their actions, in order.
pub open spec fn training_set() -> Seq<(Seq<char>, Action)> {
    seq![
        ("面向北"@, Action::FaceNorth),
        ("面向东"@, Action::FaceEast),
        ("面向南"@, Action::FaceSouth),
        ("面向西"@, Action::FaceWest),
        ("向北走"@, Action::FaceNorth),
        ("向东走"@, Action::FaceEast),
        ("向南走"@, Action::FaceSouth),
        ("向西走"@, Action::FaceWest),
        ("向右转"@, Action::TurnRight),
        ("向左转"@, Action::TurnLeft),
        ("转过身"@, Action::TurnAround),
        ("右转"@, Action::TurnRight),
        ("左转"@, Action::TurnLeft),
    ]
}

/// The test commands (unseen phrasings) and their actions, in order.
pub open spec fn test_set() -> Seq<(Seq<char>, Action)> {
    seq![
        ("看向北"@, Action::FaceNorth),
        ("看向东"@, Action::FaceEast),
        ("看向南"@, Action::FaceSouth),
        ("看向西"@, Action::FaceWest),
        ("面北"@, Action::FaceNorth),
        ("面东"@, Action::FaceEast),
        ("朝北"@, Action::FaceNorth),
        ("朝东"@, Action::FaceEast),
        ("向北"@, Action::FaceNorth),
        ("向南"@, Action::FaceSouth),
        ("掉头"@, Action::TurnAround),
        ("转过来"@, Action::TurnAround),
    ]
}

/// The (command, action) pairs held by a list of examples.
pub open spec fn example_pairs(examples: Seq<CommandExample>) -> Seq<(Seq<char>, Action)> {
    examples.map_values(|e: CommandExample| (e.command@, e.action))
}

fn example(command: &str, action: Action) -> (e: CommandExample)
    ensures
        e.command@ == command@,
        e.action == action,
{
    CommandExample { command: command.to_owned(), action }
}

/// Generate the toy dataset: `(training_examples, test_examples)`.
pub fn generate_dataset() -> (r: (Vec<CommandExample>, Vec<CommandExample>))
    ensures
        example_pairs(r.0@) == training_set(),
        example_pairs(r.1@) == test_set(),
{
    let training = vec![
        example("面向北", Action::FaceNorth),
        example("面向东", Action::FaceEast),
        example("面向南", Action::FaceSouth),
        example("面向西", Action::FaceWest),
        example("向北走", Action::FaceNorth),
        example("向东走", Action::FaceEast),
        example("向南走", Action::FaceSouth),
        example("向西走", Action::FaceWest),
        example("向右转", Action::TurnRight),
        example("向左转", Action::TurnLeft),
        example("转过身", Action::TurnAround),
        example("右转", Action::TurnRight),
        example("左转", Action::TurnLeft),
    ];
    let test = vec![
        example("看向北", Action::FaceNorth),
        example("看向东", Action::FaceEast),
        example("看向南", Action::FaceSouth),
        example("看向西", Action::FaceWest),
        example("面北", Action::FaceNorth),
        example("面东", Action::FaceEast),
        example("朝北", Action::FaceNorth),
        example("朝东", Action::FaceEast),
        example("向北", Action::FaceNorth),
        example("向南", Action::FaceSouth),
        example("掉头", Action::TurnAround),
        example("转过来", Action::TurnAround),
    ];
    assert(example_pairs(training@) =~= training_set());
    assert(example_pairs(test@) =~= test_set());
    (training, test)
}

/// The characters of a string, in order.
fn chars_of(s: &str) -> (v: Vec<char>)
    ensures
        v@ == s@,
{
    let mut v: Vec<char> = Vec::new();
    for c in it: s.chars()
        invariant
            v@ == it.seq().take(it.index() as int),
    {
        v.push(c);
    }
    v
}

/// `s` is in strictly increasing order (sorted, without repeats).
pub open spec fn strictly_sorted(s: Seq<char>) -> bool {
    forall|i: int, j: int| 0 <= i < j < s.len() ==> s[i] < s[j]
}

/// Some command among `examples` holds the character `c`.
pub open spec fn mentions(examples: Seq<CommandExample>, c: char) -> bool {
    exists|i: int| 0 <= i < examples.len() && (#[trigger] examples[i]).command@.contains(c)
}

/// Insert `c` into a strictly sorted vector unless it is already there.
fn insert_sorted(v: &mut Vec<char>, c: char)
    requires
        strictly_sorted(old(v)@),
    ensures
        strictly_sorted(final(v)@),
        forall|x: char| #![all_triggers] final(v)@.contains(x) ==> (old(v)@.contains(x) || x == c),
        forall|x: char| #![all_triggers] old(v)@.contains(x) ==> final(v)@.contains(x),
        final(v)@.contains(c),
{
    let mut p: usize = 0;
    while p < v.len() && v[p] < c
        invariant
            v@ == old(v)@,
            strictly_sorted(v@),
            p <= v.len(),
            forall|i: int| 0 <= i < p ==> v@[i] < c,
        decreases v.len() - p,
    {
        p = p + 1;
    }
    if p < v.len() && v[p] == c {
        assert(v@[p as int] == c);
        return;
    }
    let ghost before = v@;
    assert(before == old(v)@);
    v.insert(p, c);
    assert forall|i: int, j: int| 0 <= i < j < v@.len() implies v@[i] < v@[j] by {
        if j < p {
            assert(v@[i] == before[i] && v@[j] == before[j]);
        } else if j == p {
            assert(v@[i] == before[i]);
        } else if i < p {
            assert(v@[j] == before[j - 1]);
            assert(v@[i] == before[i]);
        } else if i == p {
            assert(v@[j] == before[j - 1]);
            assert(before[p as int] >= c);
            assert(before[p as int] != c);
            if j - 1 > p {
                assert(before[p as int] < before[j - 1]);
            }
        } else {
            assert(v@[j] == before[j - 1] && v@[i] == before[i - 1]);
        }
    }
    assert forall|x: char| #![all_triggers] v@.contains(x) <==> (before.contains(x) || x == c) by {
        if v@.contains(x) {
            let k = choose|k: int| 0 <= k < v@.len() && v@[k] == x;
            if k < p {
                assert(before[k] == x);
            } else if k > p {
                assert(before[k - 1] == x);
            }
        }
        if before.contains(x) {
            let k = choose|k: int| 0 <= k < before.len() && before[k] == x;
            if k < p {
                assert(v@[k] == x);
            } else {
                assert(v@[k + 1] == x);
            }
        }
        if x == c {
            assert(v@[p as int] == c);
        }
    }
}

/// Add every character of every command of `examples` to a strictly sorted vector.
fn insert_command_chars(v: &mut Vec<char>, examples: &[CommandExample])
    requires
        strictly_sorted(old(v)@),
    ensures
        strictly_sorted(final(v)@),
        forall|x: char| #![all_triggers] final(v)@.contains(x) <==> (old(v)@.contains(x) || mentions(examples@, x)),
{
    let ghost start = v@;
    let mut i: usize = 0;
    while i < examples.len()
        invariant
            i <= examples.len(),
            strictly_sorted(v@),
            forall|x: char| #![all_triggers] v@.contains(x) <==> (start.contains(x) || mentions(examples@.take(i as int), x)),
        decreases examples.len() - i,
    {
        let chars = chars_of(examples[i].command.as_str());
        let ghost mid = v@;
        let mut k: usize = 0;
        while k < chars.len()
            invariant
                i < examples.len(),
                k <= chars.len(),
                chars@ == examples@[i as int].command@,
                strictly_sorted(v@),
                forall|x: char| #![all_triggers] v@.contains(x) <==> (mid.contains(x) || chars@.take(k as int).contains(x)),
            decreases chars.len() - k,
        {
            insert_sorted(v, chars[k]);
            proof {
                let pre = chars@.take(k as int);
                let post = chars@.take(k + 1);
                assert forall|x: char| #![all_triggers] post.contains(x) <==> (pre.contains(x) || x == chars@[k as int]) by {
                    if post.contains(x) {
                        let j = choose|j: int| 0 <= j < post.len() && post[j] == x;
                        if j < k {
                            assert(pre[j] == x);
                        }
                    }
                    if pre.contains(x) {
                        let j = choose|j: int| 0 <= j < pre.len() && pre[j] == x;
                        assert(post[j] == x);
                    }
                    if x == chars@[k as int] {
                        assert(post[k as int] == x);
                    }
                }
            }
            k = k + 1;
        }
        proof {
            assert(chars@.take(chars@.len() as int) =~= chars@);
            assert forall|x: char| #![all_triggers] mentions(examples@.take(i + 1), x) <==> (mentions(examples@.take(i as int), x) || examples@[i as int].command@.contains(x)) by {
                let pre = examples@.take(i as int);
                let post = examples@.take(i + 1);
                if mentions(post, x) {
                    let j = choose|j: int| 0 <= j < post.len() && (#[trigger] post[j]).command@.contains(x);
                    if j < i {
                        assert(pre[j] == post[j]);
                    }
                }
                if mentions(pre, x) {
                    let j = choose|j: int| 0 <= j < pre.len() && (#[trigger] pre[j]).command@.contains(x);
                    assert(pre[j] == post[j]);
                }
                if examples@[i as int].command@.contains(x) {
                    assert(post[i as int] == examples@[i as int]);
                }
            }
        }
        i = i + 1;
    }
    assert(examples@.take(examples@.len() as int) =~= examples@);
}

/// Build the character vocabulary of all examples: every character that occurs
/// in a training or test command, once each, in increasing order.
pub fn build_vocab(training: &[CommandExample], test: &[CommandExample]) -> (vocab: Vec<char>)
    ensures
        strictly_sorted(vocab@),
        forall|c: char| #![all_triggers] vocab@.contains(c) <==> (mentions(training@, c) || mentions(test@, c)),
{
    let mut chars: Vec<char> = Vec::new();
    insert_command_chars(&mut chars, training);
    insert_command_chars(&mut chars, test);
    chars
}

/// The bag-of-characters encoding of `command` over `vocab`: one flag per
/// vocabulary character, set when the command holds that character.
pub open spec fn command_features(command: Seq<char>, vocab: Seq<char>) -> Seq<bool> {
    Seq::new(vocab.len(), |i: int| command.contains(vocab[i]))
}

fn contains_char(chars: &Vec<char>, c: char) -> (b: bool)
    ensures
        b == chars@.contains(c),
{
    let mut i: usize = 0;
    while i < chars.len()
        invariant
            i <= chars.len(),
            forall|j: int| 0 <= j < i ==> chars@[j] != c,
        decreases chars.len() - i,
    {
        if chars[i] == c {
            return true;
        }
        i = i + 1;
    }
    false
}

/// Encode a command string as a bag-of-characters vector over `vocab`.
pub fn encode_command(command: &str, vocab: &[char]) -> (features: Vec<bool>)
    ensures
        features@ == command_features(command@, vocab@),
        features@.len() == vocab@.len(),
        forall|j: int| 0 <= j < vocab@.len() ==> #[trigger] features@[j] == command@.contains(vocab@[j]),
{
    let chars = chars_of(command);
    let mut features: Vec<bool> = Vec::new();
    let mut i: usize = 0;
    while i < vocab.len()
        invariant
            i <= vocab.len(),
            chars@ == command@,
            features@ == command_features(command@, vocab@).take(i as int),
        decreases vocab.len() - i,
    {
        let present = contains_char(&chars, vocab[i]);
        features.push(present);
        i = i + 1;
        assert(features@ =~= command_features(command@, vocab@).take(i as int));
    }
    assert(features@ =~= command_features(command@, vocab@));
    features
}

/// Entry `k` of the examples generated from `examples`: the features of
/// command `k / 4`, the current direction index `k % 4`, and the index of the
/// direction that the command's action reaches from there.
pub open spec fn generated_example(examples: Seq<CommandExample>, vocab: Seq<char>, k: int) -> (Seq<bool>, nat, nat) {
    let e = examples[k / 4];
    (command_features(e.command@, vocab), (k % 4) as nat, direction_index(action_result(e.action, direction_of(k % 4))))
}

/// Entry `k` of the generated examples carries the bag-of-characters flags
/// of the command of example `k / 4` (one flag per vocabulary character, set
/// when that command holds it), the current direction index `k % 4`, and the
/// index of the direction that example's action reaches from there.
pub proof fn lemma_generated_example(examples: Seq<CommandExample>, vocab: Seq<char>, k: int)
    requires
        0 <= k < 4 * examples.len(),
    ensures
        ({
            let g = generated_example(examples, vocab, k);
            let e = examples[k / 4];
            &&& g.0.len() == vocab.len()
            &&& forall|j: int| 0 <= j < vocab.len() ==> #[trigger] g.0[j] == e.command@.contains(vocab[j])
            &&& g.1 == k % 4
            &&& g.2 == direction_index(action_result(e.action, direction_of(k % 4)))
        }),
{
}

/// Generate all `(features, current_direction, target_direction)` triples:
/// for each example, one per current direction in index order.
pub fn generate_examples(examples: &[CommandExample], vocab: &[char]) -> (r: Vec<(Vec<bool>, usize, usize)>)
    ensures
        r@.len() == 4 * examples@.len(),
        forall|k: int| 0 <= k < r@.len() ==> {
            let g = generated_example(examples@, vocab@, k);
            &&& (#[trigger] r@[k]).0@ == g.0
            &&& r@[k].1 == g.1
            &&& r@[k].2 == g.2
        },
        forall|k: int| 0 <= k < r@.len() ==> {
            let e = examples@[k / 4];
            &&& (#[trigger] r@[k]).0@.len() == vocab@.len()
            &&& forall|j: int| 0 <= j < vocab@.len() ==> #[trigger] r@[k].0@[j] == e.command@.contains(vocab@[j])
            &&& r@[k].1 == k % 4
            &&& r@[k].2 == direction_index(action_result(e.action, direction_of(k % 4)))
        },
{
    let mut result: Vec<(Vec<bool>, usize, usize)> = Vec::new();
    let mut i: usize = 0;
    while i < examples.len()
        invariant
            i <= examples.len(),
            result@.len() == 4 * i,
            forall|k: int| 0 <= k < result@.len() ==> {
                let g = generated_example(examples@, vocab@, k);
                &&& (#[trigger] result@[k]).0@ == g.0
                &&& result@[k].1 == g.1
                &&& result@[k].2 == g.2
            },
        decreases examples.len() - i,
    {
        let features = encode_command(examples[i].command.as_str(), vocab);
        let dirs = Direction::all();
        let mut j: usize = 0;
        while j < 4
            invariant
                i < examples.len(),
                j <= 4,
                result@.len() == 4 * i + j,
                dirs@ == all_directions(),
                features@ == command_features(examples@[i as int].command@, vocab@),
                forall|k: int| 0 <= k < result@.len() ==> {
                    let g = generated_example(examples@, vocab@, k);
                    &&& (#[trigger] result@[k]).0@ == g.0
                    &&& result@[k].1 == g.1
                    &&& result@[k].2 == g.2
                },
            decreases 4 - j,
        {
            let current = dirs[j];
            let target = examples[i].action.apply(current);
            let f = features.clone();
            assert(f@ =~= features@);
            let ghost k = 4 * i + j;
            assert(k / 4 == i && k % 4 == j) by (nonlinear_arith)
                requires k == 4 * i + j, 0 <= j < 4;
            result.push((f, current.to_index(), target.to_index()));
            j = j + 1;
        }
        i = i + 1;
    }
    result
}

} // verus!
