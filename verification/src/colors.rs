//! Colors for the curves of signals.

use vstd::prelude::*;

verus! {

/// The category10 color wheel, in order.
///
/// See also: https://matplotlib.org/users/dflt_style_changes.html#colors-in-default-property-cycle
pub open spec fn category10() -> Seq<Seq<char>> {
    seq![
        "#1F77B4"@, "#FF7F0E"@, "#2CA02C"@, "#D62728"@, "#9467BD"@,
        "#8C564B"@, "#E377C2"@, "#7F7F7F"@, "#BCBD22"@, "#17BECF"@,
    ]
}

/// Hands out colors to signals, going round the category10 color wheel; a
/// signal keeps the color that it was given first.
pub struct ColorWheel {
    color_wheel: Vec<String>,
    color_index: usize,
    /// Signal names with their colors, each name once.
    curve_colors: Vec<(String, String)>,
}

/// The colors given so far, by the text of the signal name.
pub open spec fn color_map(pairs: Seq<(String, String)>) -> Map<Seq<char>, Seq<char>>
    decreases pairs.len(),
{
    if pairs.len() == 0 {
        Map::empty()
    } else {
        color_map(pairs.drop_last()).insert(pairs.last().0@, pairs.last().1@)
    }
}

impl ColorWheel {
    /// The colors given so far, by the text of the signal name.
    pub closed spec fn assigned(&self) -> Map<Seq<char>, Seq<char>> {
        color_map(self.curve_colors@)
    }

    /// The position on the wheel of the next color to hand out.
    pub closed spec fn position(&self) -> nat {
        self.color_index as nat
    }

    /// The wheel holds the category10 colors and the position is on it.
    pub closed spec fn wf(&self) -> bool {
        &&& self.color_wheel@.len() == 10
        &&& forall|i: int| 0 <= i < 10 ==> (#[trigger] self.color_wheel@[i])@ == category10()[i]
        &&& self.color_index < 10
    }

    pub fn new() -> (r: Self)
        ensures
            r.wf(),
            r.position() == 0,
            r.assigned() == Map::<Seq<char>, Seq<char>>::empty(),
    {
        let mut color_wheel: Vec<String> = Vec::new();
        color_wheel.push(String::from_str("#1F77B4"));
        color_wheel.push(String::from_str("#FF7F0E"));
        color_wheel.push(String::from_str("#2CA02C"));
        color_wheel.push(String::from_str("#D62728"));
        color_wheel.push(String::from_str("#9467BD"));
        color_wheel.push(String::from_str("#8C564B"));
        color_wheel.push(String::from_str("#E377C2"));
        color_wheel.push(String::from_str("#7F7F7F"));
        color_wheel.push(String::from_str("#BCBD22"));
        color_wheel.push(String::from_str("#17BECF"));
        ColorWheel { color_wheel, color_index: 0, curve_colors: Vec::new() }
    }

    /// The color of the signal `name`: the one it was given before, or else
    /// the next color of the wheel, which it keeps from now on.
    pub fn get_color_for_signal(&mut self, name: &str) -> (r: String)
        requires
            old(self).wf(),
        ensures
            final(self).wf(),
            color_request(
                old(self).assigned(),
                old(self).position(),
                name@,
                final(self).assigned(),
                final(self).position(),
                r@,
            ),
    {
        match self.find_color(name) {
            Some(color) => color,
            None => {
                let color = self.next_color();
                let ghost before = self.curve_colors@;
                let entry = (name.to_owned(), color.clone());
                self.curve_colors.push(entry);
                assert(self.curve_colors@.drop_last() =~= before);
                color
            },
        }
    }

    /// The color given to `name` before, if any.
    fn find_color(&self, name: &str) -> (r: Option<String>)
        ensures
            r is Some <==> self.assigned().contains_key(name@),
            r matches Some(c) ==> c@ == self.assigned()[name@],
    {
        // The latest entry for a name is the one that counts.
        let mut i: usize = self.curve_colors.len();
        let owned = name.to_owned();
        while i > 0
            invariant
                0 <= i <= self.curve_colors@.len(),
                owned@ == name@,
                forall|k: int| i <= k < self.curve_colors@.len() ==> (#[trigger] self.curve_colors@[k]).0@ != name@,
            decreases i,
        {
            i = i - 1;
            if self.curve_colors[i].0 == owned {
                proof {
                    lemma_color_map_latest(self.curve_colors@, i as int);
                }
                return Some(self.curve_colors[i].1.clone());
            }
        }
        proof {
            lemma_color_map_absent(self.curve_colors@, name@);
        }
        None
    }

    fn next_color(&mut self) -> (r: String)
        requires
            old(self).wf(),
        ensures
            final(self).wf(),
            r@ == category10()[old(self).position() as int],
            final(self).position() == (old(self).position() + 1) % 10,
            final(self).assigned() == old(self).assigned(),
    {
        let color = self.color_wheel[self.color_index].clone();
        self.color_index += 1;
        if self.color_index >= self.color_wheel.len() {
            self.color_index = 0;
        }
        color
    }
}

/// A name that occurs in no entry has no color.
proof fn lemma_color_map_absent(pairs: Seq<(String, String)>, name: Seq<char>)
    requires
        forall|k: int| 0 <= k < pairs.len() ==> (#[trigger] pairs[k]).0@ != name,
    ensures
        !color_map(pairs).contains_key(name),
    decreases pairs.len(),
{
    if pairs.len() > 0 {
        assert(pairs[pairs.len() - 1] == pairs.last());
        lemma_color_map_absent(pairs.drop_last(), name);
    }
}

/// The color of a name is that of its latest entry.
proof fn lemma_color_map_latest(pairs: Seq<(String, String)>, i: int)
    requires
        0 <= i < pairs.len(),
        forall|k: int| i < k < pairs.len() ==> (#[trigger] pairs[k]).0@ != pairs[i].0@,
    ensures
        color_map(pairs).contains_key(pairs[i].0@),
        color_map(pairs)[pairs[i].0@] == pairs[i].1@,
    decreases pairs.len(),
{
    if i < pairs.len() - 1 {
        assert(pairs[pairs.len() - 1] == pairs.last());
        lemma_color_map_latest(pairs.drop_last(), i);
    }
}

/// What one request for the color of signal `name` does: a signal with a
/// color gets that color again; any other signal gets the color at the
/// current position of the wheel, keeps it, and the wheel turns one step.
pub open spec fn color_request(
    assigned: Map<Seq<char>, Seq<char>>,
    position: nat,
    name: Seq<char>,
    assigned_after: Map<Seq<char>, Seq<char>>,
    position_after: nat,
    color: Seq<char>,
) -> bool {
    if assigned.contains_key(name) {
        &&& color == assigned[name]
        &&& assigned_after == assigned
        &&& position_after == position
    } else {
        &&& color == category10()[position as int]
        &&& assigned_after == assigned.insert(name, color)
        &&& position_after == (position + 1) % 10
    }
}

/// A signal keeps its color: asking for the color of the same signal twice,
/// with a request for any signal in between, gives the same color.
pub proof fn lemma_color_kept(
    m0: Map<Seq<char>, Seq<char>>,
    p0: nat,
    name: Seq<char>,
    m1: Map<Seq<char>, Seq<char>>,
    p1: nat,
    c1: Seq<char>,
    other: Seq<char>,
    m2: Map<Seq<char>, Seq<char>>,
    p2: nat,
    c2: Seq<char>,
    m3: Map<Seq<char>, Seq<char>>,
    p3: nat,
    c3: Seq<char>,
)
    requires
        color_request(m0, p0, name, m1, p1, c1),
        color_request(m1, p1, other, m2, p2, c2),
        color_request(m2, p2, name, m3, p3, c3),
    ensures
        c3 == c1,
{
}

/// Signals that ask for their first color one after the other get
/// consecutive colors of the wheel.
pub proof fn lemma_colors_in_turn(
    m0: Map<Seq<char>, Seq<char>>,
    p0: nat,
    a: Seq<char>,
    m1: Map<Seq<char>, Seq<char>>,
    p1: nat,
    ca: Seq<char>,
    b: Seq<char>,
    m2: Map<Seq<char>, Seq<char>>,
    p2: nat,
    cb: Seq<char>,
)
    requires
        p0 < 10,
        !m0.contains_key(a),
        !m0.contains_key(b),
        a != b,
        color_request(m0, p0, a, m1, p1, ca),
        color_request(m1, p1, b, m2, p2, cb),
    ensures
        ca == category10()[p0 as int],
        cb == category10()[((p0 + 1) % 10) as int],
{
}

/// The requests for the colors of `names`, one after the other, take the
/// wheel through the states `maps` and `positions` and give the `colors`.
pub open spec fn color_requests(
    names: Seq<Seq<char>>,
    maps: Seq<Map<Seq<char>, Seq<char>>>,
    positions: Seq<nat>,
    colors: Seq<Seq<char>>,
) -> bool {
    &&& maps.len() == names.len() + 1
    &&& positions.len() == names.len() + 1
    &&& colors.len() == names.len()
    &&& forall|i: int| 0 <= i < names.len() ==> color_request(
        maps[i],
        positions[i],
        #[trigger] names[i],
        maps[i + 1],
        positions[i + 1],
        colors[i],
    )
}

/// Up to request `i`, the wheel has given colors to the distinct names asked
/// for so far, and stands at their number modulo 10.
proof fn lemma_wheel_prefix(
    names: Seq<Seq<char>>,
    maps: Seq<Map<Seq<char>, Seq<char>>>,
    positions: Seq<nat>,
    colors: Seq<Seq<char>>,
    i: int,
)
    requires
        color_requests(names, maps, positions, colors),
        maps[0] == Map::<Seq<char>, Seq<char>>::empty(),
        positions[0] == 0,
        0 <= i <= names.len(),
    ensures
        maps[i].dom() == names.subrange(0, i).to_set(),
        maps[i].dom().finite(),
        positions[i] == maps[i].dom().len() % 10,
    decreases i,
{
    if i == 0 {
        assert(names.subrange(0, 0).to_set() =~= Set::<Seq<char>>::empty()) by {
            assert(names.subrange(0, 0) =~= Seq::<Seq<char>>::empty());
        }
        assert(maps[0].dom() =~= Set::<Seq<char>>::empty());
    } else {
        lemma_wheel_prefix(names, maps, positions, colors, i - 1);
        let n = names[i - 1];
        assert(color_request(maps[i - 1], positions[i - 1], n, maps[i], positions[i], colors[i - 1]));
        assert(names.subrange(0, i) =~= names.subrange(0, i - 1).push(n));
        assert(names.subrange(0, i).to_set() =~= names.subrange(0, i - 1).to_set().insert(n)) by {
            Seq::<Seq<char>>::lemma_to_set_insert_commutes(names.subrange(0, i - 1), n);
            assert(names.subrange(0, i - 1) + seq![n] =~= names.subrange(0, i));
        }
        let d = maps[i - 1].dom().len();
        if !maps[i - 1].contains_key(n) {
            assert(maps[i].dom() =~= maps[i - 1].dom().insert(n));
            assert(maps[i].dom().len() == d + 1);
            assert((d % 10 + 1) % 10 == (d + 1) % 10) by (nonlinear_arith);
        }
    }
}

/// A new wheel hands out its colors in turn: a name asked for the first time
/// after k distinct names were asked for gets the color at k modulo 10 (after
/// the last color, the wheel starts again at the first), and the wheel then
/// stands at the number of distinct names asked for, modulo 10.
pub proof fn lemma_wheel_in_turn(
    names: Seq<Seq<char>>,
    maps: Seq<Map<Seq<char>, Seq<char>>>,
    positions: Seq<nat>,
    colors: Seq<Seq<char>>,
)
    requires
        color_requests(names, maps, positions, colors),
        maps[0] == Map::<Seq<char>, Seq<char>>::empty(),
        positions[0] == 0,
    ensures
        forall|i: int| 0 <= i <= names.len() ==> (#[trigger] maps[i]).dom() == names.subrange(0, i).to_set(),
        forall|i: int| 0 <= i <= names.len() ==> #[trigger] positions[i] == names.subrange(0, i).to_set().len() % 10,
        forall|i: int| 0 <= i < names.len() && !names.subrange(0, i).contains(#[trigger] names[i]) ==> colors[i]
            == category10()[(names.subrange(0, i).to_set().len() % 10) as int],
{
    assert forall|i: int| 0 <= i <= names.len() implies (#[trigger] maps[i]).dom() == names.subrange(0, i).to_set() by {
        lemma_wheel_prefix(names, maps, positions, colors, i);
    }
    assert forall|i: int| 0 <= i <= names.len() implies #[trigger] positions[i] == names.subrange(0, i).to_set().len() % 10 by {
        lemma_wheel_prefix(names, maps, positions, colors, i);
    }
    assert forall|i: int| 0 <= i < names.len() && !names.subrange(0, i).contains(#[trigger] names[i]) implies colors[i]
        == category10()[(names.subrange(0, i).to_set().len() % 10) as int] by {
        lemma_wheel_prefix(names, maps, positions, colors, i);
        assert(color_request(maps[i], positions[i], names[i], maps[i + 1], positions[i + 1], colors[i]));
        assert(!maps[i].contains_key(names[i])) by {
            if maps[i].contains_key(names[i]) {
                assert(names.subrange(0, i).to_set().contains(names[i]));
            }
        }
    }
}

} // verus!
