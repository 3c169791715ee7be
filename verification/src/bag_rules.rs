//! Which bags hold which: colors, and for each color a linked list of the
//! bags that a bag of that color holds.

use vstd::prelude::*;
use vstd::string::StringExecFns;
use crate::counting::{count_set, lemma_count_set_bound, lemma_count_set_grows};
use crate::text::{
    cut_at, pieces, split2, split_first, split_str, str_views, trim_from, u32_of, unsigned_within,
};

verus! {

/// The index that stands for "no node".
pub const INVALID_INDEX: u32 = 0xFFFFFFFF;

/// A color: its name and the head of the list of its contents.
pub struct ColorDef {
    color_name: String,
    first_child: u32,
}

/// A node of a list of contents: so many bags of one color.
pub struct ChildNode {
    next_child: u32,
    pub child_count: u32,
    child_color: u32,
}

/// The colors with their contents. Colors and nodes are held in two flat
/// lists and refer to each other by index.
pub struct RuleList {
    color_defs: Vec<ColorDef>,
    child_nodes: Vec<ChildNode>,
}

/// The list that starts at node `id`: for each node the number of bags and
/// their color.
spec fn chain(nodes: Seq<ChildNode>, id: u32) -> Seq<(u32, u32)>
    decreases id,
{
    if id == INVALID_INDEX || id >= nodes.len() {
        Seq::empty()
    } else {
        let node = nodes[id as int];
        seq![(node.child_count, node.child_color)] + if node.next_child < id {
            chain(nodes, node.next_child)
        } else {
            Seq::empty()
        }
    }
}

/// New nodes leave the lists of the old ones as they are.
proof fn lemma_chain_kept(nodes: Seq<ChildNode>, more: Seq<ChildNode>, id: u32)
    requires
        id == INVALID_INDEX || id < nodes.len(),
    ensures
        chain(nodes + more, id) == chain(nodes, id),
    decreases id,
{
    if id != INVALID_INDEX {
        let node = nodes[id as int];
        assert((nodes + more)[id as int] == node);
        if node.next_child < id {
            lemma_chain_kept(nodes, more, node.next_child);
        }
    }
}

/// The colors as mathematical values: their names, and for each color the
/// list of its contents, a number of bags and the index of their color each.
pub struct ListView {
    pub names: Seq<Seq<char>>,
    pub contents: Seq<Seq<(u32, u32)>>,
}

impl ListView {
    /// A bag of color `c` holds a bag of color `other`, directly or inside
    /// other bags, at most `d` bags deep.
    pub open spec fn holds_within(self, c: int, other: u32, d: nat) -> bool
        decreases d,
    {
        &&& d > 0
        &&& 0 <= c < self.contents.len()
        &&& exists|i: int|
            0 <= i < self.contents[c].len() && ((#[trigger] self.contents[c][i]).1 == other
                || self.holds_within(self.contents[c][i].1 as int, other, (d - 1) as nat))
    }

    /// A bag of color `c` holds a bag of color `other`, directly or inside
    /// other bags.
    pub open spec fn holds(self, c: int, other: u32) -> bool {
        exists|d: nat| self.holds_within(c, other, d)
    }

    /// The bags inside a bag of color `c` are nested at most `d` deep.
    pub open spec fn nests_within(self, c: int, d: nat) -> bool
        decreases d,
    {
        &&& d > 0
        &&& 0 <= c < self.contents.len()
        &&& forall|i: int|
            0 <= i < self.contents[c].len() ==> self.nests_within(
                (#[trigger] self.contents[c][i]).1 as int,
                (d - 1) as nat,
            )
    }

    /// The bags inside a bag of color `c` are nested finitely deep: no bag
    /// holds, through whatever bags, a bag of its own color.
    pub open spec fn nests(self, c: int) -> bool {
        exists|d: nat| self.nests_within(c, d)
    }

    /// The number of bags inside one bag of color `c`.
    pub open spec fn total(self, c: int, d: nat) -> nat
        decreases d, 0nat,
    {
        if d > 0 && 0 <= c < self.contents.len() {
            self.total_of(self.contents[c], (d - 1) as nat)
        } else {
            0
        }
    }

    /// The number of bags that the list `items` stands for: each bag of the
    /// list and the bags inside it.
    pub open spec fn total_of(self, items: Seq<(u32, u32)>, d: nat) -> nat
        decreases d, items.len() + 1,
    {
        if items.len() == 0 {
            0
        } else {
            self.total_of(items.drop_last(), d) + (1 + self.total(items.last().1 as int, d)) * (
            items.last().0 as nat)
        }
    }
}

impl ListView {
    /// Counting the bags inside a bag of color `c` stays within `u32`: the
    /// bags are nested at most `d` deep, and neither a sum nor a product on
    /// the way goes beyond `u32::MAX`.
    pub open spec fn counts_fit(self, c: int, d: nat) -> bool
        decreases d, 0nat,
    {
        &&& d > 0
        &&& 0 <= c < self.contents.len()
        &&& self.items_fit(self.contents[c], (d - 1) as nat)
    }

    /// Counting the bags that the list `items` stands for stays within `u32`.
    pub open spec fn items_fit(self, items: Seq<(u32, u32)>, d: nat) -> bool
        decreases d, items.len() + 1,
    {
        if items.len() == 0 {
            true
        } else {
            &&& self.items_fit(items.drop_last(), d)
            &&& self.counts_fit(items.last().1 as int, d)
            &&& (1 + self.total(items.last().1 as int, d)) * (items.last().0 as nat) <= u32::MAX
            &&& 1 + self.total(items.last().1 as int, d) <= u32::MAX
            &&& self.total_of(items, d) <= u32::MAX
        }
    }

    /// The number of bags inside one bag of color `c`, where that is finite.
    pub open spec fn bags_inside(self, c: int) -> nat {
        self.total(c, choose|d: nat| self.nests_within(c, d))
    }

    /// Where the count fits for the beginning of a list, the bags are counted
    /// the same way at any depth at which they nest.
    pub proof fn lemma_total_settled(self, c: int, d: nat, e: nat)
        requires
            self.nests_within(c, d),
            self.nests_within(c, e),
        ensures
            self.total(c, d) == self.total(c, e),
        decreases d, 1nat, 0nat,
    {
        self.lemma_total_of_settled(c, self.contents[c].len() as int, d, e);
        assert(self.contents[c].take(self.contents[c].len() as int) =~= self.contents[c]);
    }

    /// The same for the first `k` items of the contents of a color.
    proof fn lemma_total_of_settled(self, c: int, k: int, d: nat, e: nat)
        requires
            self.nests_within(c, d),
            self.nests_within(c, e),
            0 <= k <= self.contents[c].len(),
        ensures
            self.total_of(self.contents[c].take(k), (d - 1) as nat) == self.total_of(
                self.contents[c].take(k),
                (e - 1) as nat,
            ),
        decreases d, 0nat, k,
    {
        let items = self.contents[c];
        if k > 0 {
            self.lemma_total_of_settled(c, k - 1, d, e);
            assert(items.take(k).drop_last() =~= items.take(k - 1));
            assert(items.take(k).last() == items[k - 1]);
            assert(self.nests_within(items[k - 1].1 as int, (d - 1) as nat));
            assert(self.nests_within(items[k - 1].1 as int, (e - 1) as nat));
            self.lemma_total_settled(items[k - 1].1 as int, (d - 1) as nat, (e - 1) as nat);
        }
    }

    /// Where the count fits for a list, it fits for each beginning of it.
    pub proof fn lemma_prefix_fits(self, items: Seq<(u32, u32)>, k: int, d: nat)
        requires
            self.items_fit(items, d),
            0 <= k <= items.len(),
        ensures
            self.items_fit(items.take(k), d),
        decreases items.len(),
    {
        if k == items.len() {
            assert(items.take(k) =~= items);
        } else {
            self.lemma_prefix_fits(items.drop_last(), k, d);
            assert(items.drop_last().take(k) =~= items.take(k));
        }
    }
}

impl RuleList {
    /// The names of the colors.
    pub closed spec fn names(&self) -> Seq<Seq<char>> {
        Seq::new(self.color_defs@.len(), |c: int| self.color_defs@[c].color_name@)
    }

    /// The contents of each color.
    pub closed spec fn contents(&self) -> Seq<Seq<(u32, u32)>> {
        Seq::new(
            self.color_defs@.len(),
            |c: int| chain(self.child_nodes@, self.color_defs@[c].first_child),
        )
    }

    /// The list is well formed: no name occurs twice, every index in it is
    /// `INVALID_INDEX` or that of an entry, each node points on to an older
    /// node, and no entry has the index `INVALID_INDEX`.
    pub closed spec fn wf(&self) -> bool {
        &&& distinct(self.names())
        &&& self.color_defs@.len() <= INVALID_INDEX
        &&& self.child_nodes@.len() <= INVALID_INDEX
        &&& forall|c: int|
            0 <= c < self.color_defs@.len() ==> {
                let first = (#[trigger] self.color_defs@[c]).first_child;
                first == INVALID_INDEX || first < self.child_nodes@.len()
            }
        &&& forall|i: int|
            0 <= i < self.child_nodes@.len() ==> {
                let node = #[trigger] self.child_nodes@[i];
                &&& node.next_child == INVALID_INDEX || node.next_child < i
                &&& node.child_color < self.color_defs@.len()
            }
    }

    /// In a well-formed list no two colors have one name, so the first color
    /// of the name of a color is that color.
    pub proof fn law_names_differ(&self)
        requires
            self.wf(),
        ensures
            distinct(self@.names),
            forall|c: int|
                0 <= c < self@.names.len() ==> first_named(self@.names, #[trigger] self@.names[c])
                    == c,
    {
        assert forall|c: int| 0 <= c < self@.names.len() implies first_named(
            self@.names,
            #[trigger] self@.names[c],
        ) == c by {
            lemma_first_named(self@.names, self@.names[c], c);
        }
    }

    /// A well-formed list has as many contents as names, and its colors and
    /// its nodes can be numbered below `INVALID_INDEX`.
    pub proof fn law_sizes(&self)
        requires
            self.wf(),
        ensures
            self@.contents.len() == self@.names.len(),
            self@.names.len() <= INVALID_INDEX,
            self.node_count() <= INVALID_INDEX,
    {
    }

    /// In a well-formed list the contents name colors of the list.
    pub proof fn lemma_contents_in_range(&self, c: int, i: int)
        requires
            self.wf(),
            0 <= c < self@.contents.len(),
            0 <= i < self@.contents[c].len(),
        ensures
            self@.contents[c][i].1 < self@.names.len(),
    {
        self.lemma_chain_in_range(self.color_defs@[c].first_child, i);
    }

    /// In a well-formed list each node of a chain names a color of the list.
    proof fn lemma_chain_in_range(&self, id: u32, i: int)
        requires
            self.wf(),
            0 <= i < chain(self.child_nodes@, id).len(),
        ensures
            chain(self.child_nodes@, id)[i].1 < self.color_defs@.len(),
        decreases id,
    {
        let node = self.child_nodes@[id as int];
        if i > 0 {
            self.lemma_chain_in_range(node.next_child, i - 1);
        }
    }

    /// An empty list of colors.
    pub fn empty() -> (list: RuleList)
        ensures
            list.wf(),
            list@ == RuleList::empty_view(),
            list.node_count() == 0,
    {
        let list = RuleList { color_defs: Vec::new(), child_nodes: Vec::new() };
        proof {
            assert(list@.names =~= Seq::<Seq<char>>::empty());
            assert(list@.contents =~= Seq::<Seq<(u32, u32)>>::empty());
        }
        list
    }

    /// The color of the given name, if there is one.
    pub fn find_color(&self, color_name: &str) -> (r: Option<BagColor<'_>>)
        requires
            self.wf(),
        ensures
            match r {
                Some(color) => color.wf() && color.list() == *self && color.id() == first_named(
                    self@.names,
                    color_name@,
                ) && color.id() < self@.names.len(),
                None => first_named(self@.names, color_name@) == self@.names.len(),
            },
    {
        if let Some(index) = self.find_color_id(color_name) {
            Some(self.get_color(index))
        } else {
            None
        }
    }

    /// The number of colors.
    pub fn count(&self) -> (n: u32)
        requires
            self.wf(),
        ensures
            n == self@.names.len(),
    {
        self.color_defs.len() as u32
    }

    /// The color with the given index.
    pub fn get_color(&self, index: u32) -> (color: BagColor<'_>)
        requires
            self.wf(),
            index < self@.names.len(),
        ensures
            color.wf(),
            color.list() == *self,
            color.id() == index,
            first_named(self@.names, self@.names[index as int]) == index,
    {
        proof {
            self.law_names_differ();
        }
        BagColor { rule_list: self, color_def: &self.color_defs[index as usize], index }
    }

    /// The index of the color of the given name, if there is one.
    fn find_color_id(&self, color_name: &str) -> (r: Option<u32>)
        requires
            self.wf(),
        ensures
            match r {
                Some(i) => i == first_named(self@.names, color_name@) && i < self@.names.len(),
                None => first_named(self@.names, color_name@) == self@.names.len(),
            },
    {
        let name = color_name.to_owned();
        let mut i: usize = 0;
        while i < self.color_defs.len()
            invariant
                self.wf(),
                name@ == color_name@,
                i <= self.color_defs@.len(),
                forall|j: int| 0 <= j < i ==> (#[trigger] self@.names[j]) != color_name@,
            decreases self.color_defs@.len() - i,
        {
            if self.color_defs[i].color_name == name {
                proof {
                    assert(self@.names[i as int] == color_name@);
                    lemma_first_named(self@.names, color_name@, i as int);
                }
                return Some(i as u32);
            }
            proof {
                assert(self@.names[i as int] != color_name@);
            }
            i += 1;
        }
        proof {
            lemma_first_named(self@.names, color_name@, self@.names.len() as int);
        }
        None
    }
}

/// The words ` bags contain `.
pub open spec fn bags_contain() -> Seq<char> {
    seq![' ', 'b', 'a', 'g', 's', ' ', 'c', 'o', 'n', 't', 'a', 'i', 'n', ' ']
}

/// The word ` bag`.
pub open spec fn bag_word() -> Seq<char> {
    seq![' ', 'b', 'a', 'g']
}

/// The words ` bags contain `.
fn contain_words() -> (r: &'static str)
    ensures
        r@ == bags_contain(),
{
    proof {
        reveal_strlit(" bags contain ");
    }
    let r = " bags contain ";
    assert(r@ =~= bags_contain());
    r
}

/// The word ` bag`.
fn bag_suffix() -> (r: &'static str)
    ensures
        r@ == bag_word(),
{
    proof {
        reveal_strlit(" bag");
    }
    let r = " bag";
    assert(r@ =~= bag_word());
    r
}

/// A blank.
fn blank() -> (r: &'static str)
    ensures
        r@ == seq![' '],
{
    proof {
        reveal_strlit(" ");
    }
    let r = " ";
    assert(r@ =~= seq![' ']);
    r
}

/// A full stop.
fn full_stop() -> (r: &'static str)
    ensures
        r@ == seq!['.'],
{
    proof {
        reveal_strlit(".");
    }
    let r = ".";
    assert(r@ =~= seq!['.']);
    r
}

/// A comma and a blank.
fn comma_blank() -> (r: &'static str)
    ensures
        r@ == seq![',', ' '],
{
    proof {
        reveal_strlit(", ");
    }
    let r = ", ";
    assert(r@ =~= seq![',', ' ']);
    r
}

/// What one item of the contents denotes: a number of bags and the name of
/// their color, which ends before ` bag`. An item without a number, such as
/// `no other bags`, denotes nothing.
pub open spec fn content_of(s: Seq<char>) -> Option<(u32, Seq<char>)> {
    match split_first(s, seq![' ']) {
        Some((number, name)) => match unsigned_within(number, u32::MAX as nat) {
            Some(n) => Some((n as u32, cut_at(name, bag_word()))),
            None => None,
        },
        None => None,
    }
}

/// The name and the items of the contents that the line
/// `<name> bags contain <item>, <item>, ... .` holds.
pub open spec fn rule_text(line: Seq<char>) -> Option<(Seq<char>, Seq<Seq<char>>)> {
    match split_first(line, bags_contain()) {
        Some((name, tail)) => Some((name, pieces(cut_at(tail, seq!['.']), seq![',', ' ']))),
        None => None,
    }
}

/// The number of entries that can still be added to a list of so many
/// colors and nodes.
pub open spec fn room_for(colors: nat, nodes: nat) -> int {
    if colors >= nodes {
        INVALID_INDEX - colors
    } else {
        INVALID_INDEX - nodes
    }
}

/// The number of the items that denote bags.
pub open spec fn items_denoting(items: Seq<Seq<char>>) -> nat
    decreases items.len(),
{
    if items.len() == 0 {
        0
    } else {
        items_denoting(items.drop_last()) + if content_of(items.last()) is Some {
            1nat
        } else {
            0nat
        }
    }
}

/// The number of nodes that the line adds to the list.
pub open spec fn added_nodes(line: Seq<char>) -> nat {
    match rule_text(line) {
        Some((_, items)) => items_denoting(items),
        None => 0,
    }
}

/// The list that the lines build and the number of its nodes, or `None`
/// if a line may add more entries than there is room for.
pub open spec fn built(lines: Seq<Seq<char>>) -> Option<(ListView, nat)>
    decreases lines.len(),
{
    if lines.len() == 0 {
        Some((RuleList::empty_view(), 0nat))
    } else {
        match built(lines.drop_last()) {
            Some((view, nodes)) => if demand(lines.last()) > room_for(view.names.len(), nodes) {
                None
            } else {
                Some((with_rule(view, lines.last()), nodes + added_nodes(lines.last())))
            },
            None => None,
        }
    }
}

/// Once the first lines find no room, neither do all.
pub proof fn lemma_built_fails(lines: Seq<Seq<char>>, k: int)
    requires
        0 <= k <= lines.len(),
        built(lines.take(k)) is None,
    ensures
        built(lines) is None,
    decreases lines.len(),
{
    if k == lines.len() {
        assert(lines.take(k) =~= lines);
    } else {
        assert(lines.drop_last().take(k) =~= lines.take(k));
        lemma_built_fails(lines.drop_last(), k);
    }
}

/// The number of entries that the line may add to the list.
pub open spec fn demand(line: Seq<char>) -> nat {
    match rule_text(line) {
        Some((_, items)) => items.len() + 1,
        None => 0,
    }
}

/// The list with a color of the given name, added at the end if there was none.
pub open spec fn with_color(v: ListView, name: Seq<char>) -> ListView {
    if first_named(v.names, name) < v.names.len() {
        v
    } else {
        ListView { names: v.names.push(name), contents: v.contents.push(Seq::empty()) }
    }
}

/// The list with `number` bags of the color `name` put in front of the
/// contents of color `c`.
pub open spec fn with_content(v: ListView, c: int, number: u32, name: Seq<char>) -> ListView {
    let w = with_color(v, name);
    let child = first_named(w.names, name) as u32;
    ListView { names: w.names, contents: w.contents.update(c, seq![(number, child)] + w.contents[c]) }
}

/// The list with what the items denote put into the contents of color `c`,
/// item by item.
pub open spec fn with_items(v: ListView, c: int, items: Seq<Seq<char>>) -> ListView
    decreases items.len(),
{
    if items.len() == 0 {
        v
    } else {
        let w = with_items(v, c, items.drop_last());
        match content_of(items.last()) {
            Some((number, name)) => with_content(w, c, number, name),
            None => w,
        }
    }
}

/// The list with what the line says put in. A line without
/// ` bags contain ` says nothing.
pub open spec fn with_rule(v: ListView, line: Seq<char>) -> ListView {
    match rule_text(line) {
        Some((name, items)) => {
            let w = with_color(v, name);
            with_items(w, first_named(w.names, name), items)
        },
        None => v,
    }
}

impl RuleList {
    /// The number of nodes: of the items of all contents together.
    pub closed spec fn node_count(&self) -> nat {
        self.child_nodes@.len()
    }

    /// The number of entries that can still be added: colors and nodes
    /// are numbered below `INVALID_INDEX`.
    pub open spec fn room(&self) -> int {
        room_for(self@.names.len(), self.node_count())
    }

    /// The number of entries that can still be added.
    pub fn free(&self) -> (n: u32)
        requires
            self.wf(),
        ensures
            n == self.room(),
    {
        if self.color_defs.len() >= self.child_nodes.len() {
            INVALID_INDEX - self.color_defs.len() as u32
        } else {
            INVALID_INDEX - self.child_nodes.len() as u32
        }
    }

    /// The index of the color of the given name, which is added to the list if
    /// it was not there.
    fn get_color_id(&mut self, color_name: &str) -> (id: u32)
        requires
            old(self).wf(),
            old(self).room() >= 1,
        ensures
            final(self).wf(),
            final(self)@ == with_color(old(self)@, color_name@),
            id == first_named(final(self)@.names, color_name@),
            id < final(self)@.names.len(),
            old(self)@.names.len() <= final(self)@.names.len(),
            final(self).room() >= old(self).room() - 1,
            final(self).child_nodes == old(self).child_nodes,
            final(self).node_count() == old(self).node_count(),
    {
        if let Some(id) = self.find_color_id(color_name) {
            id
        } else {
            let index = self.color_defs.len();
            let ghost before = *self;
            self.color_defs.push(
                ColorDef { color_name: String::from_str(color_name), first_child: INVALID_INDEX },
            );
            proof {
                assert(self@.names =~= before@.names.push(color_name@));
                assert(self@.contents =~= before@.contents.push(Seq::empty()));
                lemma_first_named_pushed(before@.names, color_name@);
                lemma_first_named_absent(before@.names, color_name@);
            }
            index as u32
        }
    }

    /// Puts so many bags of the color `child_name` in front of the contents
    /// of the color `color_id`.
    fn add_content(&mut self, color_id: u32, child_count: u32, child_name: &str)
        requires
            old(self).wf(),
            old(self).room() >= 1,
            color_id < old(self)@.names.len(),
        ensures
            final(self).wf(),
            final(self)@ == with_content(old(self)@, color_id as int, child_count, child_name@),
            old(self)@.names.len() <= final(self)@.names.len(),
            final(self).room() >= old(self).room() - 1,
            final(self).node_count() == old(self).node_count() + 1,
    {
        let child_id = self.child_nodes.len() as u32;
        let child_color_id = self.get_color_id(child_name);
        let ghost mid = *self;
        let first = self.color_defs[color_id as usize].first_child;
        self.child_nodes.push(
            ChildNode { next_child: first, child_count, child_color: child_color_id },
        );
        let name = self.color_defs[color_id as usize].color_name.clone();
        self.color_defs.set(color_id as usize, ColorDef { color_name: name, first_child: child_id });
        proof {
            let node = ChildNode { next_child: first, child_count, child_color: child_color_id };
            assert(self.child_nodes@ =~= mid.child_nodes@ + seq![node]);
            assert(self@.names =~= mid@.names);
            assert forall|c: int| 0 <= c < self.color_defs@.len() implies #[trigger] self@.contents[c]
                == mid@.contents.update(
                color_id as int,
                seq![(child_count, child_color_id)] + mid@.contents[color_id as int],
            )[c] by {
                if c == color_id {
                    lemma_chain_kept(mid.child_nodes@, seq![node], first);
                    assert(chain(self.child_nodes@, child_id) =~= seq![
                        (child_count, child_color_id),
                    ] + chain(mid.child_nodes@, first));
                } else {
                    lemma_chain_kept(mid.child_nodes@, seq![node], mid.color_defs@[c].first_child);
                }
            }
            assert(self@.contents =~= mid@.contents.update(
                color_id as int,
                seq![(child_count, child_color_id)] + mid@.contents[color_id as int],
            ));
        }
    }

    /// Puts into the list what the line says:
    /// `<name> bags contain <number> <name> bags, ... .`
    pub fn add_rule(&mut self, line: &str)
        requires
            old(self).wf(),
            demand(line@) <= old(self).room(),
        ensures
            final(self).wf(),
            final(self)@ == with_rule(old(self)@, line@),
            final(self).room() >= old(self).room() - demand(line@),
            final(self).node_count() == old(self).node_count() + added_nodes(line@),
    {
        let ghost nodes = self.node_count();
        if let Some((color_name, tail)) = split2(line, contain_words()) {
            let ghost start = self@;
            let ghost room = self.room();
            let color_id = self.get_color_id(color_name);
            let ghost named = self@;
            let body = trim_from(tail, full_stop());
            let items = split_str(body, comma_blank());
            let ghost texts = str_views(items@);
            let mut k: usize = 0;
            proof {
                assert(texts.take(0) =~= Seq::<Seq<char>>::empty());
            }
            while k < items.len()
                invariant
                    self.wf(),
                    texts == str_views(items@),
                    k <= items@.len(),
                    color_id < self@.names.len(),
                    self@ == with_items(named, color_id as int, texts.take(k as int)),
                    self.node_count() == nodes + items_denoting(texts.take(k as int)),
                    self.room() >= room - 1 - k,
                    room >= 1 + items@.len(),
                decreases items@.len() - k,
            {
                let content = items[k];
                proof {
                    assert(texts.take(k + 1).drop_last() =~= texts.take(k as int));
                    assert(texts.take(k + 1).last() == content@);
                }
                if let Some((number, child_color_name)) = split2(content, blank()) {
                    if let Some(child_count) = u32_of(number) {
                        self.add_content(
                            color_id,
                            child_count,
                            trim_from(child_color_name, bag_suffix()),
                        );
                    }
                }
                k += 1;
            }
            proof {
                assert(texts.take(items@.len() as int) =~= texts);
            }
        }
    }

    /// The number of entries that the line may add to the list.
    pub fn demand_of(line: &str) -> (n: u128)
        ensures
            n == demand(line@),
    {
        if let Some((_, tail)) = split2(line, contain_words()) {
            let items = split_str(trim_from(tail, full_stop()), comma_blank());
            items.len() as u128 + 1
        } else {
            0
        }
    }

    /// The list that the lines build, or `None` if a line may add more
    /// entries than can be numbered.
    pub fn from_lines(lines: &Vec<String>) -> (r: Option<RuleList>)
        ensures
            match r {
                Some(list) => list.wf() && built(crate::text::line_texts(lines@)) == Some(
                    (list@, list.node_count()),
                ),
                None => built(crate::text::line_texts(lines@)) is None,
            },
    {
        let ghost all = crate::text::line_texts(lines@);
        let mut rules = RuleList::empty();
        let mut i: usize = 0;
        proof {
            assert(all.take(0) =~= Seq::<Seq<char>>::empty());
        }
        while i < lines.len()
            invariant
                all == crate::text::line_texts(lines@),
                i <= lines@.len(),
                rules.wf(),
                built(all.take(i as int)) == Some((rules@, rules.node_count())),
            decreases lines@.len() - i,
        {
            proof {
                assert(all.take(i + 1).drop_last() =~= all.take(i as int));
                assert(all.take(i + 1).last() == lines@[i as int]@);
            }
            let line = lines[i].as_str();
            let free = rules.free();
            let need = RuleList::demand_of(line);
            if need > free as u128 {
                proof {
                    lemma_built_fails(all, i + 1);
                }
                return None;
            }
            rules.add_rule(line);
            i += 1;
        }
        proof {
            assert(all.take(lines@.len() as int) =~= all);
        }
        Some(rules)
    }

    /// The list without colors.
    pub open spec fn empty_view() -> ListView {
        ListView { names: Seq::empty(), contents: Seq::empty() }
    }
}

/// No two of `names` are the same.
pub open spec fn distinct(names: Seq<Seq<char>>) -> bool {
    forall|i: int, j: int| 0 <= i < j < names.len() ==> names[i] != names[j]
}

/// A name whose first place is the end is none of `names`.
pub proof fn lemma_first_named_absent(names: Seq<Seq<char>>, name: Seq<char>)
    requires
        first_named(names, name) == names.len(),
    ensures
        forall|j: int| 0 <= j < names.len() ==> (#[trigger] names[j]) != name,
    decreases names.len(),
{
    if names.len() > 0 {
        let rest = names.drop_first();
        lemma_first_named_absent(rest, name);
        assert forall|j: int| 0 <= j < names.len() implies (#[trigger] names[j]) != name by {
            if j > 0 {
                assert(rest[j - 1] == names[j]);
            }
        }
    }
}

/// A name that is not among `names` is found at the end once it is added.
pub proof fn lemma_first_named_pushed(names: Seq<Seq<char>>, name: Seq<char>)
    requires
        first_named(names, name) == names.len(),
    ensures
        first_named(names.push(name), name) == names.len(),
    decreases names.len(),
{
    if names.len() > 0 {
        assert(names.push(name).drop_first() =~= names.drop_first().push(name));
        lemma_first_named_pushed(names.drop_first(), name);
    }
}

impl View for RuleList {
    type V = ListView;

    /// The names and the contents of the colors.
    closed spec fn view(&self) -> ListView {
        ListView { names: self.names(), contents: self.contents() }
    }
}

/// The index of the first of `names` that is `name`, or their number if
/// none is.
pub open spec fn first_named(names: Seq<Seq<char>>, name: Seq<char>) -> int
    decreases names.len(),
{
    if names.len() == 0 {
        0
    } else if names[0] == name {
        0
    } else {
        1 + first_named(names.drop_first(), name)
    }
}

/// `first_named` is the index before which no name is `name`.
pub proof fn lemma_first_named(names: Seq<Seq<char>>, name: Seq<char>, i: int)
    requires
        0 <= i <= names.len(),
        forall|j: int| 0 <= j < i ==> (#[trigger] names[j]) != name,
        i < names.len() ==> names[i] == name,
    ensures
        first_named(names, name) == i,
    decreases i,
{
    if i > 0 {
        let rest = names.drop_first();
        assert forall|j: int| 0 <= j < i - 1 implies (#[trigger] rest[j]) != name by {
            assert(rest[j] == names[j + 1]);
        }
        assert(names[0] != name);
        lemma_first_named(rest, name, i - 1);
    }
}

/// A color of a list.
pub struct BagColor<'a> {
    rule_list: &'a RuleList,
    color_def: &'a ColorDef,
    index: u32,
}

/// So many bags of one color, inside a bag of another.
pub struct ChildBag<'a> {
    rule_list: &'a RuleList,
    node: &'a ChildNode,
}

/// Goes through the contents of a color.
pub struct ChildBagIterator<'a> {
    rule_list: &'a RuleList,
    child_id: u32,
}

impl<'a> BagColor<'a> {
    /// The list that the color belongs to.
    pub closed spec fn list(&self) -> RuleList {
        *self.rule_list
    }

    /// The index of the color.
    pub closed spec fn id(&self) -> u32 {
        self.index
    }

    /// The color is one of a well-formed list.
    pub closed spec fn wf(&self) -> bool {
        &&& self.rule_list.wf()
        &&& self.index < self.rule_list.color_defs@.len()
        &&& *self.color_def == self.rule_list.color_defs@[self.index as int]
    }

    /// The index of the color.
    pub fn index(&self) -> (i: u32)
        ensures
            i == self.id(),
    {
        self.index
    }

    /// The name of the color.
    pub fn name(&self) -> (name: &'a str)
        requires
            self.wf(),
        ensures
            name@ == self.list()@.names[self.id() as int],
    {
        self.color_def.color_name.as_str()
    }

    /// An iterator over the contents of the color.
    pub fn children(&self) -> (it: ChildBagIterator<'a>)
        requires
            self.wf(),
        ensures
            it.wf(),
            it.list() == self.list(),
            it.remaining() == self.list()@.contents[self.id() as int],
    {
        ChildBagIterator { rule_list: self.rule_list, child_id: self.color_def.first_child }
    }

    /// Whether a bag of this color holds a bag of the color `other_index`,
    /// directly or inside other bags.
    pub fn contains_color(&self, other_index: u32) -> (b: bool)
        requires
            self.wf(),
            self.list()@.nests(self.id() as int),
        ensures
            b == self.list()@.holds(self.id() as int, other_index),
    {
        let ghost d = choose|d: nat| self.list()@.nests_within(self.id() as int, d);
        self.contains_color_within(other_index, Ghost(d))
    }

    /// The same, where the bags are known to nest within `d` levels.
    fn contains_color_within(&self, other_index: u32, Ghost(d): Ghost<nat>) -> (b: bool)
        requires
            self.wf(),
            self.list()@.nests_within(self.id() as int, d),
        ensures
            b == self.list()@.holds(self.id() as int, other_index),
        decreases d,
    {
        let ghost view = self.list()@;
        let ghost c = self.id() as int;
        let ghost items = view.contents[c];
        let mut it = self.children();
        let ghost mut seen: int = 0;
        loop
            invariant
                self.wf(),
                view == self.list()@,
                c == self.id(),
                0 <= c < view.contents.len(),
                items == view.contents[c],
                view.nests_within(c, d),
                it.wf(),
                it.list() == self.list(),
                0 <= seen <= items.len(),
                it.remaining() == items.skip(seen),
                forall|i: int|
                    0 <= i < seen ==> (#[trigger] items[i]).1 != other_index && !view.holds(
                        items[i].1 as int,
                        other_index,
                    ),
            ensures
                !view.holds(c, other_index),
            decreases items.len() - seen,
        {
            match it.next() {
                Some(child) => {
                    proof {
                        assert(items.skip(seen)[0] == items[seen]);
                        assert(items.skip(seen).drop_first() =~= items.skip(seen + 1));
                        assert(view.nests_within(items[seen].1 as int, (d - 1) as nat));
                    }
                    let color = child.get_color();
                    if color.index() == other_index || color.contains_color_within(
                        other_index,
                        Ghost((d - 1) as nat),
                    ) {
                        proof {
                            if items[seen].1 == other_index {
                                assert(view.holds_within(c, other_index, 1));
                            } else {
                                let e = choose|e: nat|
                                    view.holds_within(items[seen].1 as int, other_index, e);
                                assert(view.holds_within(c, other_index, e + 1));
                            }
                        }
                        return true;
                    }
                    proof {
                        seen = seen + 1;
                    }
                },
                None => {
                    proof {
                        assert(seen == items.len());
                        if view.holds(c, other_index) {
                            let e = choose|e: nat| view.holds_within(c, other_index, e);
                            let i = choose|i: int|
                                0 <= i < items.len() && ((#[trigger] items[i]).1 == other_index
                                    || view.holds_within(
                                    items[i].1 as int,
                                    other_index,
                                    (e - 1) as nat,
                                ));
                            assert(view.holds(items[i].1 as int, other_index));
                        }
                    }
                    break;
                },
            }
        }
        false
    }
}

impl<'a> ChildBag<'a> {
    /// The list that the bags belong to.
    pub closed spec fn list(&self) -> RuleList {
        *self.rule_list
    }

    /// The number of bags.
    pub closed spec fn number(&self) -> u32 {
        self.node.child_count
    }

    /// The index of the color of the bags.
    pub closed spec fn color(&self) -> u32 {
        self.node.child_color
    }

    /// The bags are of a color of a well-formed list.
    pub closed spec fn wf(&self) -> bool {
        &&& self.rule_list.wf()
        &&& self.node.child_color < self.rule_list.color_defs@.len()
    }

    /// The number of bags.
    pub fn get_count(&self) -> (n: u32)
        ensures
            n == self.number(),
    {
        self.node.child_count
    }

    /// The color of the bags.
    pub fn get_color(&self) -> (color: BagColor<'a>)
        requires
            self.wf(),
        ensures
            color.wf(),
            color.list() == self.list(),
            color.id() == self.color(),
    {
        let index = self.node.child_color;
        BagColor {
            rule_list: self.rule_list,
            color_def: &self.rule_list.color_defs[index as usize],
            index,
        }
    }
}

impl<'a> ChildBagIterator<'a> {
    /// The list that is gone through.
    pub closed spec fn list(&self) -> RuleList {
        *self.rule_list
    }

    /// What is still to come: a number of bags and the index of their color each.
    pub closed spec fn remaining(&self) -> Seq<(u32, u32)> {
        chain(self.rule_list.child_nodes@, self.child_id)
    }

    /// The iterator stands in a well-formed list.
    pub closed spec fn wf(&self) -> bool {
        &&& self.rule_list.wf()
        &&& (self.child_id == INVALID_INDEX || self.child_id < self.rule_list.child_nodes@.len())
    }

    /// The next bags of the contents, if any are left.
    pub fn next(&mut self) -> (r: Option<ChildBag<'a>>)
        requires
            old(self).wf(),
        ensures
            final(self).wf(),
            final(self).list() == old(self).list(),
            match r {
                Some(child) => {
                    &&& old(self).remaining().len() > 0
                    &&& child.wf()
                    &&& child.list() == old(self).list()
                    &&& (child.number(), child.color()) == old(self).remaining()[0]
                    &&& final(self).remaining() == old(self).remaining().drop_first()
                },
                None => old(self).remaining().len() == 0 && final(self).remaining().len() == 0,
            },
    {
        if self.child_id == INVALID_INDEX {
            None
        } else {
            let node = &self.rule_list.child_nodes[self.child_id as usize];
            proof {
                let rest = chain(self.rule_list.child_nodes@, node.next_child);
                assert(old(self).remaining() =~= seq![(node.child_count, node.child_color)] + rest);
                assert(old(self).remaining().drop_first() =~= rest);
            }
            self.child_id = node.next_child;
            Some(ChildBag { rule_list: self.rule_list, node })
        }
    }
}

/// The number of bags inside one bag of the color, where the bags are known
/// to nest within `d` levels; `None` if a sum or a product does not fit.
fn count_within(color: &BagColor, Ghost(d): Ghost<nat>) -> (r: Option<u32>)
    requires
        color.wf(),
        color.list()@.nests_within(color.id() as int, d),
    ensures
        r is Some <==> color.list()@.counts_fit(color.id() as int, d),
        match r {
            Some(n) => n == color.list()@.total(color.id() as int, d),
            None => true,
        },
    decreases d,
{
    let ghost view = color.list()@;
    let ghost c = color.id() as int;
    let ghost items = view.contents[c];
    let ghost e = (d - 1) as nat;
    let mut count: u32 = 0;
    let mut it = color.children();
    let ghost mut seen: int = 0;
    proof {
        assert(items.take(0) =~= Seq::<(u32, u32)>::empty());
        assert(items.skip(0) =~= items);
    }
    loop
        invariant
            color.wf(),
            view == color.list()@,
            c == color.id(),
            0 <= c < view.contents.len(),
            items == view.contents[c],
            d > 0,
            e == d - 1,
            view.nests_within(c, d),
            it.wf(),
            it.list() == color.list(),
            0 <= seen <= items.len(),
            it.remaining() == items.skip(seen),
            view.items_fit(items.take(seen), e),
            count == view.total_of(items.take(seen), e),
        ensures
            view.items_fit(items, e),
            count == view.total_of(items, e),
        decreases items.len() - seen,
    {
        match it.next() {
            Some(child) => {
                let ghost head = items.take(seen);
                let ghost more = items.take(seen + 1);
                proof {
                    assert(items.skip(seen)[0] == items[seen]);
                    assert(items.skip(seen).drop_first() =~= items.skip(seen + 1));
                    assert(view.nests_within(items[seen].1 as int, e));
                    assert(more.drop_last() =~= head);
                    assert(more.last() == items[seen]);
                    if view.items_fit(items, e) {
                        view.lemma_prefix_fits(items, seen + 1, e);
                    }
                }
                let inside = match count_within(&child.get_color(), Ghost(e)) {
                    Some(n) => n,
                    None => {
                        return None;
                    },
                };
                let per_child_count = match inside.checked_add(1) {
                    Some(n) => n,
                    None => {
                        return None;
                    },
                };
                let all = match per_child_count.checked_mul(child.get_count()) {
                    Some(n) => n,
                    None => {
                        return None;
                    },
                };
                count = match count.checked_add(all) {
                    Some(n) => n,
                    None => {
                        return None;
                    },
                };
                proof {
                    seen = seen + 1;
                }
            },
            None => {
                proof {
                    assert(items.take(seen) =~= items);
                }
                break;
            },
        }
    }
    Some(count)
}

/// The number of bags inside one bag of the given color, or `None` if it
/// does not fit in a `u32`.
pub fn try_count_children(color: &BagColor) -> (r: Option<u32>)
    requires
        color.wf(),
        color.list()@.nests(color.id() as int),
    ensures
        match r {
            Some(n) => n == color.list()@.bags_inside(color.id() as int),
            None => forall|d: nat| !color.list()@.counts_fit(color.id() as int, d),
        },
{
    let ghost view = color.list()@;
    let ghost c = color.id() as int;
    let ghost d = choose|d: nat| view.nests_within(c, d);
    let r = count_within(color, Ghost(d));
    proof {
        if r is None {
            assert forall|e: nat| !view.counts_fit(c, e) by {
                if view.counts_fit(c, e) {
                    lemma_fit_settled(view, c, e, d);
                }
            }
        }
    }
    r
}

/// The number of bags inside one bag of the given color.
pub fn count_children(color: &BagColor) -> (count: u32)
    requires
        color.wf(),
        exists|d: nat| color.list()@.counts_fit(color.id() as int, d),
    ensures
        count == color.list()@.bags_inside(color.id() as int),
{
    let ghost view = color.list()@;
    let ghost c = color.id() as int;
    proof {
        let e = choose|e: nat| view.counts_fit(c, e);
        lemma_fit_nests(view, c, e);
    }
    match try_count_children(color) {
        Some(n) => n,
        None => 0,
    }
}

/// Where the count fits, the bags nest.
pub proof fn lemma_fit_nests(view: ListView, c: int, d: nat)
    requires
        view.counts_fit(c, d),
    ensures
        view.nests_within(c, d),
    decreases d, 0nat,
{
    let items = view.contents[c];
    assert forall|i: int| 0 <= i < items.len() implies view.nests_within(
        (#[trigger] items[i]).1 as int,
        (d - 1) as nat,
    ) by {
        view.lemma_prefix_fits(items, i + 1, (d - 1) as nat);
        assert(items.take(i + 1).last() == items[i]);
        lemma_fit_nests(view, items[i].1 as int, (d - 1) as nat);
    }
}

/// Whether the count fits does not depend on the depth, once the bags nest
/// within it.
pub proof fn lemma_fit_settled(view: ListView, c: int, d: nat, e: nat)
    requires
        view.counts_fit(c, d),
        view.nests_within(c, e),
    ensures
        view.counts_fit(c, e),
    decreases d, 1nat, 0nat,
{
    let items = view.contents[c];
    lemma_items_fit_settled(view, c, items.len() as int, d, e);
    assert(items.take(items.len() as int) =~= items);
}

/// The same for the first `k` items of the contents of a color.
proof fn lemma_items_fit_settled(view: ListView, c: int, k: int, d: nat, e: nat)
    requires
        view.counts_fit(c, d),
        view.nests_within(c, e),
        0 <= k <= view.contents[c].len(),
    ensures
        view.items_fit(view.contents[c].take(k), (e - 1) as nat),
        view.total_of(view.contents[c].take(k), (e - 1) as nat) == view.total_of(
            view.contents[c].take(k),
            (d - 1) as nat,
        ),
    decreases d, 0nat, k,
{
    let items = view.contents[c];
    if k > 0 {
        lemma_items_fit_settled(view, c, k - 1, d, e);
        view.lemma_prefix_fits(items, k, (d - 1) as nat);
        assert(items.take(k).drop_last() =~= items.take(k - 1));
        assert(items.take(k).last() == items[k - 1]);
        let child = items[k - 1].1 as int;
        assert(view.nests_within(child, (e - 1) as nat));
        lemma_fit_settled(view, child, (d - 1) as nat, (e - 1) as nat);
        lemma_fit_nests(view, child, (d - 1) as nat);
        view.lemma_total_settled(child, (d - 1) as nat, (e - 1) as nat);
    }
}

/// Bags that nest within a depth nest within any greater depth.
pub proof fn lemma_nests_deeper(view: ListView, c: int, d: nat, e: nat)
    requires
        view.nests_within(c, d),
        d <= e,
    ensures
        view.nests_within(c, e),
    decreases d,
{
    let items = view.contents[c];
    assert forall|i: int| 0 <= i < items.len() implies view.nests_within(
        (#[trigger] items[i]).1 as int,
        (e - 1) as nat,
    ) by {
        lemma_nests_deeper(view, items[i].1 as int, (d - 1) as nat, (e - 1) as nat);
    }
}

/// Each color that is marked nests within the depth.
pub open spec fn marks_hold(view: ListView, known: Seq<bool>, d: nat) -> bool {
    &&& known.len() == view.contents.len()
    &&& forall|c: int| 0 <= c < known.len() && #[trigger] known[c] ==> view.nests_within(c, d)
}

/// Every color inside a bag of color `c` is marked.
pub open spec fn contents_marked(view: ListView, known: Seq<bool>, c: int) -> bool {
    forall|i: int|
        0 <= i < view.contents[c].len() ==> (#[trigger] view.contents[c][i]).1 < known.len()
            && known[view.contents[c][i].1 as int]
}

/// No color that is not marked has all its contents marked.
pub open spec fn marks_stable(view: ListView, known: Seq<bool>) -> bool {
    forall|c: int| 0 <= c < known.len() && !#[trigger] known[c] ==> !contents_marked(view, known, c)
}

/// Where no more color can be marked, every color that nests is marked.
pub proof fn lemma_stable_marks(view: ListView, known: Seq<bool>, c: int, d: nat)
    requires
        known.len() == view.contents.len(),
        marks_stable(view, known),
        view.nests_within(c, d),
    ensures
        known[c],
    decreases d,
{
    let items = view.contents[c];
    if !known[c] {
        assert forall|i: int| 0 <= i < items.len() implies (#[trigger] items[i]).1 < known.len()
            && known[items[i].1 as int] by {
            assert(view.nests_within(items[i].1 as int, (d - 1) as nat));
            lemma_stable_marks(view, known, items[i].1 as int, (d - 1) as nat);
        }
        assert(contents_marked(view, known, c));
    }
}

impl RuleList {
    /// Whether every color inside a bag of the given color is marked.
    fn contents_known(&self, known: &Vec<bool>, index: u32) -> (b: bool)
        requires
            self.wf(),
            index < self@.names.len(),
            known@.len() == self@.contents.len(),
        ensures
            b == contents_marked(self@, known@, index as int),
    {
        let ghost view = self@;
        let ghost items = view.contents[index as int];
        let color = self.get_color(index);
        let mut it = color.children();
        let ghost mut seen: int = 0;
        proof {
            assert(items.skip(0) =~= items);
        }
        loop
            invariant
                self.wf(),
                view == self@,
                items == view.contents[index as int],
                index < view.names.len(),
                known@.len() == view.contents.len(),
                it.wf(),
                it.list() == *self,
                0 <= seen <= items.len(),
                it.remaining() == items.skip(seen),
                forall|i: int|
                    0 <= i < seen ==> (#[trigger] items[i]).1 < known@.len() && known@[items[i].1 as int],
            ensures
                contents_marked(view, known@, index as int),
            decreases items.len() - seen,
        {
            match it.next() {
                Some(child) => {
                    proof {
                        assert(items.skip(seen)[0] == items[seen]);
                        assert(items.skip(seen).drop_first() =~= items.skip(seen + 1));
                        self.lemma_contents_in_range(index as int, seen);
                    }
                    let inner = child.get_color().index();
                    if !known[inner as usize] {
                        return false;
                    }
                    proof {
                        seen = seen + 1;
                    }
                },
                None => {
                    break;
                },
            }
        }
        true
    }

    /// Whether the bags inside a bag of the given color are nested finitely
    /// deep: whether no bag inside it holds, through whatever bags, a bag of
    /// its own color.
    pub fn nests(&self, index: u32) -> (b: bool)
        requires
            self.wf(),
            index < self@.names.len(),
        ensures
            b == self@.nests(index as int),
    {
        let ghost view = self@;
        let n = self.count();
        let mut known: Vec<bool> = Vec::new();
        while known.len() < n as usize
            invariant
                known@.len() <= n,
                forall|c: int| 0 <= c < known@.len() ==> !#[trigger] known@[c],
            decreases n - known@.len(),
        {
            known.push(false);
        }
        let ghost mut depth: nat = 0;
        loop
            invariant
                self.wf(),
                view == self@,
                n == view.names.len(),
                view.names.len() == view.contents.len(),
                marks_hold(view, known@, depth),
            ensures
                marks_hold(view, known@, depth),
                marks_stable(view, known@),
            decreases n - count_set(known@),
        {
            let ghost at_start = known@;
            let mut changed = false;
            let mut c: u32 = 0;
            while c < n
                invariant
                    self.wf(),
                    view == self@,
                    n == view.names.len(),
                    view.names.len() == view.contents.len(),
                    c <= n,
                    marks_hold(view, known@, depth),
                    changed ==> count_set(known@) > count_set(at_start),
                    !changed ==> known@ == at_start && forall|q: int|
                        0 <= q < c && !#[trigger] known@[q] ==> !contents_marked(view, known@, q),
                decreases n - c,
            {
                if !known[c as usize] && self.contents_known(&known, c) {
                    let ghost before = known@;
                    known.set(c as usize, true);
                    proof {
                        lemma_count_set_grows(before, c as int);
                        assert forall|q: int| 0 <= q < known@.len() && #[trigger] known@[q]
                            implies view.nests_within(q, depth + 1) by {
                            if q == c {
                                let items = view.contents[q];
                                assert forall|i: int| 0 <= i < items.len() implies view.nests_within(
                                    (#[trigger] items[i]).1 as int,
                                    depth,
                                ) by {
                                    assert(before[items[i].1 as int]);
                                }
                            } else {
                                assert(before[q]);
                                lemma_nests_deeper(view, q, depth, depth + 1);
                            }
                        }
                        depth = depth + 1;
                    }
                    changed = true;
                }
                c += 1;
            }
            proof {
                lemma_count_set_bound(known@);
            }
            if !changed {
                break;
            }
        }
        let b = known[index as usize];
        proof {
            if !b && view.nests(index as int) {
                let d = choose|d: nat| view.nests_within(index as int, d);
                lemma_stable_marks(view, known@, index as int, d);
            }
        }
        b
    }
}

} // verus!
