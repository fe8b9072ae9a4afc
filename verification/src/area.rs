//! The tree of territories (a country, its regions, their districts), each
//! with an area, and the check that the areas are consistent.
use vstd::prelude::*;
use crate::text::{dec_int, push_i64, strings};
use crate::rules::{indent, spaces};

verus! {

/// The kind of a territory.
#[derive(Debug, Clone, Copy, PartialEq, Eq, Structural)]
pub enum NodeType {
    Country,
    Region,
    District,
    Root,
}

/// A territory: its kind, its name, its area and the territories it is made of.
pub struct Node {
    pub node_type: NodeType,
    pub name: String,
    pub area: i64,
    pub childs: Vec<Node>,
}

/// The mathematical model of a territory.
pub ghost struct NodeView {
    pub node_type: NodeType,
    pub name: Seq<char>,
    pub area: int,
    pub childs: Seq<NodeView>,
}

/// The model of a territory.
pub open spec fn node_view(n: Node) -> NodeView
    decreases n,
{
    NodeView {
        node_type: n.node_type,
        name: n.name@,
        area: n.area as int,
        childs: nodes_view(n.childs@),
    }
}

/// The models of a sequence of territories.
pub open spec fn nodes_view(s: Seq<Node>) -> Seq<NodeView>
    decreases s,
{
    if s.len() == 0 {
        Seq::empty()
    } else {
        nodes_view(s.drop_last()).push(node_view(s.last()))
    }
}

impl View for Node {
    type V = NodeView;

    open spec fn view(&self) -> NodeView {
        node_view(*self)
    }
}

pub proof fn lemma_nodes_view(s: Seq<Node>)
    ensures
        nodes_view(s).len() == s.len(),
        forall|i: int| 0 <= i < s.len() ==> #[trigger] nodes_view(s)[i] == s[i]@,
    decreases s.len(),
{
    if s.len() > 0 {
        lemma_nodes_view(s.drop_last());
        assert forall|i: int| 0 <= i < s.len() implies #[trigger] nodes_view(s)[i] == s[i]@ by {
            if i < s.len() - 1 {
                assert(s.drop_last()[i] == s[i]);
            }
        }
    }
}

pub proof fn lemma_nodes_view_update(s: Seq<Node>, i: int, x: Node)
    requires
        0 <= i < s.len(),
    ensures
        nodes_view(s.update(i, x)) == nodes_view(s).update(i, x@),
{
    lemma_nodes_view(s);
    lemma_nodes_view(s.update(i, x));
    assert(nodes_view(s.update(i, x)) =~= nodes_view(s).update(i, x@));
}

/// The sum of the areas of a sequence of territories.
pub open spec fn sum_areas(s: Seq<NodeView>) -> int
    decreases s.len(),
{
    if s.len() == 0 {
        0
    } else {
        sum_areas(s.drop_last()) + s.last().area
    }
}

/// Adding up the areas one after another, from the first, never leaves the
/// range of `i64`.
pub open spec fn prefix_sums_fit(s: Seq<NodeView>) -> bool
    decreases s.len(),
{
    s.len() == 0 || (prefix_sums_fit(s.drop_last()) && i64::MIN <= sum_areas(s) && sum_areas(s) <= i64::MAX)
}

/// For the territory and every territory under it, the sum of the areas of
/// its parts can be added up in `i64`.
pub open spec fn sums_fit(n: NodeView) -> bool
    decreases n,
{
    prefix_sums_fit(n.childs) && sums_fit_all(n.childs)
}

/// `sums_fit` holds of each territory of `s`.
pub open spec fn sums_fit_all(s: Seq<NodeView>) -> bool
    decreases s,
{
    s.len() == 0 || (sums_fit_all(s.drop_last()) && sums_fit(s.last()))
}

/// The area of a territory lies in [1, 999].
pub open spec fn area_in_range(n: NodeView) -> bool {
    1 <= n.area && n.area <= 999
}

/// A territory without parts, or one whose area is the sum of the areas of its parts.
pub open spec fn area_matches_parts(n: NodeView) -> bool {
    n.childs.len() == 0 || n.area == sum_areas(n.childs)
}

/// The structure rule: every territory of the tree has an area in [1, 999],
/// and every territory with parts has the sum of their areas as its area.
pub open spec fn valid(n: NodeView) -> bool
    decreases n,
{
    area_in_range(n) && area_matches_parts(n) && valid_all(n.childs)
}

/// `valid` holds of each territory of `s`.
pub open spec fn valid_all(s: Seq<NodeView>) -> bool
    decreases s,
{
    s.len() == 0 || (valid_all(s.drop_last()) && valid(s.last()))
}

/// "name (area)" for one part.
pub open spec fn part_label(n: NodeView) -> Seq<char> {
    n.name + " ("@ + dec_int(n.area) + ")"@
}

/// The labels of the parts, joined by ", ".
pub open spec fn part_labels(s: Seq<NodeView>) -> Seq<char>
    decreases s.len(),
{
    if s.len() == 0 {
        Seq::empty()
    } else if s.len() == 1 {
        part_label(s[0])
    } else {
        part_labels(s.drop_last()) + ", "@ + part_label(s.last())
    }
}

/// The message for an area out of range.
pub open spec fn bad_area_message(n: NodeView) -> Seq<char> {
    "Узел '"@ + n.name + "' имеет недопустимую площадь "@ + dec_int(n.area)
        + " (должно быть 1 ≤ area ≤ 999)"@
}

/// The message for an area that is not the sum of the areas of the parts.
pub open spec fn bad_sum_message(n: NodeView) -> Seq<char> {
    "Площадь узла '"@ + n.name + "' ("@ + dec_int(n.area) + ") не равна сумме площадей детей ("@
        + dec_int(sum_areas(n.childs)) + ")"@
}

/// The message that lists the areas of the parts.
pub open spec fn parts_message(n: NodeView) -> Seq<char> {
    "Дочерние площади: ["@ + part_labels(n.childs) + "]"@
}

/// The message of a territory's area, if it is out of range.
pub open spec fn area_messages(n: NodeView) -> Seq<Seq<char>> {
    if area_in_range(n) { Seq::empty() } else { seq![bad_area_message(n)] }
}

/// The messages of a territory whose area is not the sum of its parts' areas.
pub open spec fn sum_messages(n: NodeView) -> Seq<Seq<char>> {
    if area_matches_parts(n) { Seq::empty() } else { seq![bad_sum_message(n), parts_message(n)] }
}

/// The messages that checking one territory (not its parts) gives.
pub open spec fn own_messages(n: NodeView) -> Seq<Seq<char>> {
    area_messages(n) + sum_messages(n)
}

/// The messages that checking a tree gives: those of the territory, then
/// those of each part in turn.
pub open spec fn check_messages(n: NodeView) -> Seq<Seq<char>>
    decreases n,
{
    own_messages(n) + check_messages_all(n.childs)
}

/// The messages of checking each territory of `s` in turn.
pub open spec fn check_messages_all(s: Seq<NodeView>) -> Seq<Seq<char>>
    decreases s,
{
    if s.len() == 0 {
        Seq::empty()
    } else {
        check_messages_all(s.drop_last()) + check_messages(s.last())
    }
}

/// What checking a tree does when the sums of areas are added up in `i64`:
/// the messages printed, and the verdict, or `None` where adding up the areas
/// of some territory's parts leaves `i64` (the check stops there). A
/// territory's area message comes before the sum of its parts is taken.
pub open spec fn check_run(n: NodeView) -> (Seq<Seq<char>>, Option<bool>)
    decreases n,
{
    if !prefix_sums_fit(n.childs) {
        (area_messages(n), None)
    } else {
        let (kid_msgs, kid_res) = check_run_all(n.childs);
        (own_messages(n) + kid_msgs, match kid_res {
            None => None,
            Some(v) => Some(area_in_range(n) && area_matches_parts(n) && v),
        })
    }
}

/// Checking each territory of `s` in turn, stopping where one stops.
pub open spec fn check_run_all(s: Seq<NodeView>) -> (Seq<Seq<char>>, Option<bool>)
    decreases s,
{
    if s.len() == 0 {
        (Seq::empty(), Some(true))
    } else {
        let (msgs, res) = check_run_all(s.drop_last());
        match res {
            None => (msgs, None),
            Some(v) => {
                let (m2, r2) = check_run(s.last());
                (msgs + m2, match r2 {
                    None => None,
                    Some(w) => Some(v && w),
                })
            },
        }
    }
}

/// Where the sums fit, the check runs to its end: it prints the messages of
/// `check_messages` and its verdict is `valid`.
pub proof fn lemma_check_run_fits(n: NodeView)
    requires
        sums_fit(n),
    ensures
        check_run(n) == (check_messages(n), Some(valid(n))),
    decreases n,
{
    lemma_check_run_all_fits(n.childs);
}

/// Where the sums fit, checking each territory in turn runs to its end.
pub proof fn lemma_check_run_all_fits(s: Seq<NodeView>)
    requires
        sums_fit_all(s),
    ensures
        check_run_all(s) == (check_messages_all(s), Some(valid_all(s))),
    decreases s,
{
    if s.len() > 0 {
        lemma_check_run_all_fits(s.drop_last());
        lemma_check_run_fits(s.last());
    }
}

/// A tree of territories is valid exactly when checking it prints nothing:
/// `check_struct` answers `true` exactly when it adds no message.
pub proof fn law_valid_iff_silent(n: NodeView)
    ensures
        valid(n) <==> check_messages(n).len() == 0,
    decreases n,
{
    law_valid_iff_silent_all(n.childs);
}

/// Each territory of `s` is valid exactly when checking them prints nothing.
pub proof fn law_valid_iff_silent_all(s: Seq<NodeView>)
    ensures
        valid_all(s) <==> check_messages_all(s).len() == 0,
    decreases s,
{
    if s.len() > 0 {
        law_valid_iff_silent_all(s.drop_last());
        law_valid_iff_silent(s.last());
    }
}

proof fn lemma_prefix_sums_fit_take(s: Seq<NodeView>, k: int)
    requires
        prefix_sums_fit(s),
        0 <= k <= s.len(),
    ensures
        prefix_sums_fit(s.take(k)),
    decreases s.len(),
{
    if k < s.len() {
        assert(s.drop_last().take(k) =~= s.take(k));
        lemma_prefix_sums_fit_take(s.drop_last(), k);
    } else {
        assert(s.take(k) =~= s);
    }
}

proof fn lemma_take_step(s: Seq<NodeView>, k: int)
    requires
        0 <= k < s.len(),
    ensures
        s.take(k + 1).drop_last() == s.take(k),
        s.take(k + 1).last() == s[k],
{
    assert(s.take(k + 1).drop_last() =~= s.take(k));
}

/// Adds `child` as the last part of `parent`.
pub fn add_child(parent: &mut Node, child: Node)
    ensures
        final(parent)@ == (NodeView { childs: old(parent)@.childs.push(child@), ..old(parent)@ }),
{
    let ghost old_childs = parent.childs@;
    parent.childs.push(child);
    assert(parent.childs@.drop_last() =~= old_childs);
}

fn bad_area_text(node: &Node) -> (t: String)
    ensures
        t@ == bad_area_message(node@),
{
    let mut t = String::from_str("Узел '");
    t.append(node.name.as_str());
    t.append("' имеет недопустимую площадь ");
    push_i64(&mut t, node.area);
    t.append(" (должно быть 1 ≤ area ≤ 999)");
    t
}

fn bad_sum_text(node: &Node, sum: i64) -> (t: String)
    requires
        sum == sum_areas(node@.childs),
    ensures
        t@ == bad_sum_message(node@),
{
    let mut t = String::from_str("Площадь узла '");
    t.append(node.name.as_str());
    t.append("' (");
    push_i64(&mut t, node.area);
    t.append(") не равна сумме площадей детей (");
    push_i64(&mut t, sum);
    t.append(")");
    t
}

fn parts_text(node: &Node) -> (t: String)
    ensures
        t@ == parts_message(node@),
{
    let ghost kids = node@.childs;
    proof {
        lemma_nodes_view(node.childs@);
    }
    let mut labels = String::new();
    let n = node.childs.len();
    let mut k: usize = 0;
    while k < n
        invariant
            n == node.childs@.len(),
            n == kids.len(),
            kids == node@.childs,
            forall|i: int| 0 <= i < n ==> #[trigger] kids[i] == node.childs@[i]@,
            k <= n,
            labels@ == part_labels(kids.take(k as int)),
        decreases n - k,
    {
        proof {
            lemma_take_step(kids, k as int);
        }
        assert(kids[k as int] == node.childs@[k as int]@);
        if k > 0 {
            labels.append(", ");
        }
        labels.append(node.childs[k].name.as_str());
        labels.append(" (");
        push_i64(&mut labels, node.childs[k].area);
        labels.append(")");
        k = k + 1;
    }
    assert(kids.take(n as int) =~= kids);
    let mut t = String::from_str("Дочерние площади: [");
    t.append(labels.as_str());
    t.append("]");
    t
}

proof fn lemma_check_run_all_step(s: Seq<NodeView>, k: int)
    requires
        0 <= k < s.len(),
        check_run_all(s.take(k)).1 is Some,
    ensures
        check_run_all(s.take(k + 1)) == ({
            let (msgs, res) = check_run_all(s.take(k));
            let (m2, r2) = check_run(s[k]);
            (msgs + m2, match r2 {
                None => None,
                Some(w) => Some(res->0 && w),
            })
        }),
{
    lemma_take_step(s, k);
}

proof fn lemma_check_run_all_stops(s: Seq<NodeView>, k: int)
    requires
        0 <= k <= s.len(),
        check_run_all(s.take(k)).1 is None,
    ensures
        check_run_all(s) == check_run_all(s.take(k)),
    decreases s.len() - k,
{
    if k < s.len() {
        lemma_take_step(s, k);
        lemma_check_run_all_stops(s, k + 1);
    } else {
        assert(s.take(k) =~= s);
    }
}

/// Checks the tree under `node` as `check_run` says: adds the messages to
/// `log`, and gives the verdict, or `None` where the sum of some territory's
/// parts leaves `i64` (the check stops there, with the messages so far).
pub(crate) fn check_tree(node: &Node, log: &mut Vec<String>) -> (r: Option<bool>)
    ensures
        r == check_run(node@).1,
        strings(final(log)@) == strings(old(log)@) + check_run(node@).0,
    decreases node@,
{
    let ghost kids = node@.childs;
    let ghost log0 = strings(log@);
    proof {
        lemma_nodes_view(node.childs@);
    }
    let mut is_valid = true;
    if node.area < 1 || node.area > 999 {
        log.push(bad_area_text(node));
        is_valid = false;
    }
    assert(strings(log@) =~= log0 + area_messages(node@));
    let n = node.childs.len();
    if n != 0 {
        let mut sum: i64 = 0;
        let mut k: usize = 0;
        assert(kids.take(0) =~= Seq::<NodeView>::empty());
        while k < n
            invariant
                n == node.childs@.len(),
                n == kids.len(),
                kids == node@.childs,
                forall|i: int| 0 <= i < n ==> #[trigger] kids[i] == node.childs@[i]@,
                k <= n,
                sum == sum_areas(kids.take(k as int)),
                prefix_sums_fit(kids.take(k as int)),
                log0 == strings(old(log)@),
                strings(log@) == log0 + area_messages(node@),
            decreases n - k,
        {
            proof {
                lemma_take_step(kids, k as int);
            }
            let next: i128 = sum as i128 + node.childs[k].area as i128;
            if next < i64::MIN as i128 || next > i64::MAX as i128 {
                proof {
                    if prefix_sums_fit(kids) {
                        lemma_prefix_sums_fit_take(kids, k + 1);
                    }
                }
                return None;
            }
            sum = next as i64;
            k = k + 1;
        }
        assert(kids.take(n as int) =~= kids);
        if node.area != sum {
            log.push(bad_sum_text(node, sum));
            log.push(parts_text(node));
            is_valid = false;
        }
    } else {
        assert(kids =~= Seq::<NodeView>::empty());
    }
    let ghost log1 = strings(log@);
    assert(log1 =~= log0 + own_messages(node@));
    let ghost own_ok = is_valid;
    let ghost mut kids_ok = true;
    let mut j: usize = 0;
    assert(kids.take(0) =~= Seq::<NodeView>::empty());
    assert(log1 =~= log1 + check_run_all(kids.take(0)).0);
    while j < n
        invariant
            n == node.childs@.len(),
            n == kids.len(),
            kids == node@.childs,
            forall|i: int| 0 <= i < n ==> #[trigger] kids[i] == node.childs@[i]@,
            j <= n,
            own_ok == (area_in_range(node@) && area_matches_parts(node@)),
            prefix_sums_fit(kids),
            log0 == strings(old(log)@),
            log1 == log0 + own_messages(node@),
            check_run_all(kids.take(j as int)).1 == Some(kids_ok),
            is_valid == (own_ok && kids_ok),
            strings(log@) == log1 + check_run_all(kids.take(j as int)).0,
        decreases n - j,
    {
        proof {
            lemma_check_run_all_step(kids, j as int);
        }
        assert(kids[j as int] == node.childs@[j as int]@);
        match check_tree(&node.childs[j], log) {
            None => {
                proof {
                    lemma_check_run_all_stops(kids, j + 1);
                }
                return None;
            },
            Some(ok) => {
                if !ok {
                    is_valid = false;
                }
                proof {
                    kids_ok = kids_ok && ok;
                }
            },
        }
        j = j + 1;
    }
    assert(kids.take(n as int) =~= kids);
    Some(is_valid)
}

/// Checks the structure rule on the tree under `node`: every area lies in
/// [1, 999], and every territory with parts has the sum of their areas as its
/// area. Each breach adds its messages to `log`, the territory's own first,
/// then those of its parts in turn; every territory is checked.
pub fn check_struct(node: &Node, log: &mut Vec<String>) -> (is_valid: bool)
    requires
        sums_fit(node@),
    ensures
        is_valid == valid(node@),
        strings(final(log)@) == strings(old(log)@) + check_messages(node@),
{
    proof {
        lemma_check_run_fits(node@);
    }
    match check_tree(node, log) {
        Some(v) => v,
        None => false,
    }
}

/// The number of levels of the tree under a territory, itself included.
pub open spec fn height(n: NodeView) -> nat
    decreases n,
{
    1 + height_all(n.childs)
}

/// The greatest height of the territories of `s` (0 for none).
pub open spec fn height_all(s: Seq<NodeView>) -> nat
    decreases s,
{
    if s.len() == 0 {
        0
    } else {
        let h = height(s.last());
        let rest = height_all(s.drop_last());
        if h > rest { h } else { rest }
    }
}

proof fn lemma_height_all(s: Seq<NodeView>, i: int)
    requires
        0 <= i < s.len(),
    ensures
        height(s[i]) <= height_all(s),
    decreases s.len(),
{
    if i < s.len() - 1 {
        assert(s.drop_last()[i] == s[i]);
        lemma_height_all(s.drop_last(), i);
    }
}

/// The line printed for a territory at a depth: two spaces per level, "- ",
/// the name and the area.
pub open spec fn struct_line(n: NodeView, depth: nat) -> Seq<char> {
    spaces(2 * depth) + "- "@ + n.name + " (area: "@ + dec_int(n.area) + ")"@
}

/// The lines that print the tree under a territory: its line, then those of
/// its parts one level deeper, in order.
pub open spec fn struct_lines(n: NodeView, depth: nat) -> Seq<Seq<char>>
    decreases n,
{
    seq![struct_line(n, depth)] + struct_lines_all(n.childs, depth + 1)
}

/// The lines that print each territory of `s` in turn.
pub open spec fn struct_lines_all(s: Seq<NodeView>, depth: nat) -> Seq<Seq<char>>
    decreases s,
{
    if s.len() == 0 {
        Seq::empty()
    } else {
        struct_lines_all(s.drop_last(), depth) + struct_lines(s.last(), depth)
    }
}

/// The number of territories in the tree under `n`, `n` included.
pub open spec fn node_count(n: NodeView) -> nat
    decreases n,
{
    1 + node_count_all(n.childs)
}

/// The number of territories in the trees under the territories of `s`.
pub open spec fn node_count_all(s: Seq<NodeView>) -> nat
    decreases s,
{
    if s.len() == 0 {
        0
    } else {
        node_count_all(s.drop_last()) + node_count(s.last())
    }
}

/// Printing a tree prints one line per territory of the tree, at any depth:
/// the territory's own line first, then every part's whole subtree, each part
/// one level deeper than its territory.
pub proof fn law_print_struct_one_line_per_territory(n: NodeView, depth: nat)
    ensures
        struct_lines(n, depth).len() == node_count(n),
        struct_lines(n, depth)[0] == struct_line(n, depth),
        struct_lines(n, depth).skip(1) == struct_lines_all(n.childs, depth + 1),
        struct_lines_all(n.childs, depth + 1).len() == node_count(n) - 1,
    decreases n,
{
    law_print_struct_all_one_line_per_territory(n.childs, depth + 1);
    assert(struct_lines(n, depth).skip(1) =~= struct_lines_all(n.childs, depth + 1));
}

/// Printing the trees under the territories of `s`, in turn, prints one line
/// per territory of those trees, each tree starting with its root's line.
pub proof fn law_print_struct_all_one_line_per_territory(s: Seq<NodeView>, depth: nat)
    ensures
        struct_lines_all(s, depth).len() == node_count_all(s),
    decreases s,
{
    if s.len() > 0 {
        law_print_struct_all_one_line_per_territory(s.drop_last(), depth);
        law_print_struct_one_line_per_territory(s.last(), depth);
    }
}

impl Node {
    /// Adds to `out` the lines that print the tree under this territory,
    /// starting at `depth`.
    pub fn print_struct(&self, depth: usize, out: &mut Vec<String>)
        requires
            depth + height(self@) <= usize::MAX,
        ensures
            strings(final(out)@) == strings(old(out)@) + struct_lines(self@, depth as nat),
        decreases self@,
    {
        let ghost kids = self@.childs;
        proof {
            lemma_nodes_view(self.childs@);
        }
        let mut line = indent(depth);
        line.append("- ");
        line.append(self.name.as_str());
        line.append(" (area: ");
        push_i64(&mut line, self.area);
        line.append(")");
        let ghost out0 = strings(out@);
        out.push(line);
        let ghost out1 = strings(out@);
        assert(out1 =~= out0.push(struct_line(self@, depth as nat)));
        let n = self.childs.len();
        let mut k: usize = 0;
        assert(kids.take(0) =~= Seq::<NodeView>::empty());
        while k < n
            invariant
                n == self.childs@.len(),
                n == kids.len(),
                kids == self@.childs,
                forall|i: int| 0 <= i < n ==> #[trigger] kids[i] == self.childs@[i]@,
                depth + height(self@) <= usize::MAX,
                k <= n,
                strings(out@) == out1 + struct_lines_all(kids.take(k as int), (depth + 1) as nat),
            decreases n - k,
        {
            proof {
                lemma_take_step(kids, k as int);
                lemma_height_all(kids, k as int);
            }
            assert(kids[k as int] == self.childs@[k as int]@);
            self.childs[k].print_struct(depth + 1, out);
            k = k + 1;
        }
        assert(kids.take(n as int) =~= kids);
    }
}

} // verus!
