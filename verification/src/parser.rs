//! The parser: reads the lexem table sentence by sentence (a country, then
//! regions and districts), builds the tree of territories and the parse tree,
//! and checks the areas.
use vstd::prelude::*;
use crate::text::{buf_to_lexem, chars_eq, split_chars, split_on, texts, strings, lemma_split_on_nonempty,
    dec_int, parse_i64, parse_i64_spec, format_i64};
use crate::area::{Node, NodeType, NodeView, add_child, lemma_nodes_view, lemma_nodes_view_update,
    check_tree, check_run};
use crate::rules::{RuleNode, RuleTree, RuleView, attach, rename, rules_wf, render};

verus! {

/// The fields of a line of the lexem table: the pieces between its '-'.
pub open spec fn fields(line: Seq<char>) -> Seq<Seq<char>> {
    split_on(line, '-')
}

/// The lexem table read line by line: its lines and the index of the next
/// line to read.
pub struct LexemTable {
    pub lines: Vec<Vec<char>>,
    pub pos: usize,
}

impl LexemTable {
    /// The lines of the table.
    pub open spec fn lines_view(&self) -> Seq<Seq<char>> {
        texts(self.lines@)
    }

    /// A table over the lines of `text` (the pieces between its '\n'), to be
    /// read from the first.
    pub fn new(text: &[char]) -> (t: LexemTable)
        ensures
            t.lines_view() == split_on(text@, '\n'),
            t.pos == 0,
    {
        LexemTable { lines: split_chars(text, '\n'), pos: 0 }
    }

    /// Reads the next line, if any is left, and gives its fields.
    pub fn next_fields(&mut self) -> (r: Option<Vec<Vec<char>>>)
        ensures
            final(self).lines == old(self).lines,
            old(self).pos < old(self).lines@.len() ==> final(self).pos == old(self).pos + 1 && r is Some
                && texts(r->0@) == fields(old(self).lines_view()[old(self).pos as int]),
            old(self).pos >= old(self).lines@.len() ==> final(self).pos == old(self).pos && r is None,
            old(self).pos <= old(self).lines@.len() ==> final(self).pos <= final(self).lines@.len(),
    {
        if self.pos < self.lines.len() {
            let f = split_chars(self.lines[self.pos].as_slice(), '-');
            self.pos = self.pos + 1;
            Some(f)
        } else {
            None
        }
    }
}

/// The outcome of testing a line against what the grammar expects there.
#[derive(Debug, Clone, Copy, PartialEq, Eq, Structural)]
pub enum Check {
    /// The line is the one expected.
    Pass,
    /// The line is another one: the sentence is rejected.
    Fail,
    /// The line has no value after its kind where one is read: the run stops.
    Halt,
}

/// What the grammar expects of a line.
pub ghost enum Expect {
    /// A lexem of this kind with this value.
    Pair(Seq<char>, Seq<char>),
    /// A lexem of this kind, whose value is read.
    Kind(Seq<char>),
}

/// Testing the fields of a line against an expected kind and value: another
/// kind fails; the right kind with no value halts; another value fails.
pub open spec fn check_pair(f: Seq<Seq<char>>, kind: Seq<char>, value: Seq<char>) -> Check {
    if f[0] != kind {
        Check::Fail
    } else if f.len() < 2 {
        Check::Halt
    } else if f[1] != value {
        Check::Fail
    } else {
        Check::Pass
    }
}

/// Testing the fields of a line against an expected kind: another kind
/// fails; the right kind with no value to read halts.
pub open spec fn check_kind(f: Seq<Seq<char>>, kind: Seq<char>) -> Check {
    if f[0] != kind {
        Check::Fail
    } else if f.len() < 2 {
        Check::Halt
    } else {
        Check::Pass
    }
}

/// Testing a line against what is expected of it.
pub open spec fn check_line(line: Seq<char>, e: Expect) -> Check {
    match e {
        Expect::Pair(k, v) => check_pair(fields(line), k, v),
        Expect::Kind(k) => check_kind(fields(line), k),
    }
}

/// The lines of a country sentence.
pub open spec fn country_expects() -> Seq<Expect> {
    seq![
        Expect::Pair("String"@, "country"@),
        Expect::Pair("Delimeter"@, ":"@),
        Expect::Kind("String"@),
        Expect::Pair("Delimeter"@, ":"@),
        Expect::Kind("Number"@),
    ]
}

/// The lines of a region or district sentence after its keyword.
pub open spec fn part_expects() -> Seq<Expect> {
    seq![
        Expect::Pair("Delimeter"@, ":"@),
        Expect::Kind("String"@),
        Expect::Pair("Delimeter"@, ":"@),
        Expect::Kind("Number"@),
    ]
}

/// How many of the expected lines from the `k`-th on, starting at line `pos`,
/// are there and pass, counting from `k`, up to the first that does not.
pub open spec fn reached_from(lines: Seq<Seq<char>>, pos: int, exps: Seq<Expect>, k: int) -> int
    decreases exps.len() - k,
{
    if k < 0 || k >= exps.len() || pos + k < 0 || pos + k >= lines.len()
        || check_line(lines[pos + k], exps[k]) != Check::Pass {
        k
    } else {
        reached_from(lines, pos, exps, k + 1)
    }
}

/// How many of the expected lines, starting at line `pos`, pass before the
/// first one that does not (or is missing).
pub open spec fn reached(lines: Seq<Seq<char>>, pos: int, exps: Seq<Expect>) -> int {
    reached_from(lines, pos, exps, 0)
}

/// How reading the expected lines at `pos` ends.
pub ghost enum Stage {
    /// Every expected line is there and passes.
    Complete,
    /// The expected line with this index is the first that fails.
    Rejected(int),
    /// A line is missing, or has no value where one is read.
    Halt,
}

/// How reading the expected lines `exps` from line `pos` ends: complete when
/// all pass, rejected at the first that fails, halted where that line is
/// missing or lacks the value to read.
pub open spec fn stage(lines: Seq<Seq<char>>, pos: int, exps: Seq<Expect>) -> Stage {
    let r = reached(lines, pos, exps);
    if r >= exps.len() {
        Stage::Complete
    } else if pos + r >= lines.len() {
        Stage::Halt
    } else if check_line(lines[pos + r], exps[r]) == Check::Fail {
        Stage::Rejected(r)
    } else {
        Stage::Halt
    }
}

/// The value (second field) of the `k`-th line from `pos`.
pub open spec fn value_at(lines: Seq<Seq<char>>, pos: int, k: int) -> Seq<char> {
    fields(lines[pos + k])[1]
}

/// Passing the `k`-th expected line takes the count past `k`.
pub proof fn lemma_reached_step(lines: Seq<Seq<char>>, pos: int, exps: Seq<Expect>, k: int)
    requires
        0 <= k < exps.len(),
        0 <= pos,
        pos + k < lines.len(),
        reached(lines, pos, exps) >= k,
        check_line(lines[pos + k], exps[k]) == Check::Pass,
    ensures
        reached(lines, pos, exps) >= k + 1,
{
    lemma_reached_from(lines, pos, exps, 0, k);
    lemma_reached_from_ge(lines, pos, exps, k + 1);
}

/// Where the `k`-th expected line is missing or does not pass, the count stops at `k`.
pub proof fn lemma_reached_stop(lines: Seq<Seq<char>>, pos: int, exps: Seq<Expect>, k: int)
    requires
        0 <= k < exps.len(),
        0 <= pos,
        reached(lines, pos, exps) >= k,
        pos + k >= lines.len() || check_line(lines[pos + k], exps[k]) != Check::Pass,
    ensures
        reached(lines, pos, exps) == k,
{
    lemma_reached_from(lines, pos, exps, 0, k);
}

pub proof fn lemma_reached_from_ge(lines: Seq<Seq<char>>, pos: int, exps: Seq<Expect>, k: int)
    requires
        0 <= k,
        0 <= pos,
    ensures
        reached_from(lines, pos, exps, k) >= k,
    decreases exps.len() - k,
{
    if k < exps.len() && pos + k < lines.len() && check_line(lines[pos + k], exps[k]) == Check::Pass {
        lemma_reached_from_ge(lines, pos, exps, k + 1);
    }
}

/// Unfolding `reached_from` over lines that pass.
proof fn lemma_reached_from(lines: Seq<Seq<char>>, pos: int, exps: Seq<Expect>, j: int, k: int)
    requires
        0 <= j <= k,
        k < exps.len(),
        0 <= pos,
        reached_from(lines, pos, exps, j) >= k,
    ensures
        reached_from(lines, pos, exps, j) == reached_from(lines, pos, exps, k),
    decreases k - j,
{
    if j < k {
        lemma_reached_from(lines, pos, exps, j + 1, k);
    }
}

/// Tests the fields of a line against an expected kind and value.
fn check_pair_exec(f: &Vec<Vec<char>>, kind: &str, value: &str) -> (c: Check)
    requires
        f@.len() >= 1,
    ensures
        c == check_pair(texts(f@), kind@, value@),
{
    if !chars_eq(&f[0], kind) {
        Check::Fail
    } else if f.len() < 2 {
        Check::Halt
    } else if !chars_eq(&f[1], value) {
        Check::Fail
    } else {
        Check::Pass
    }
}

/// Tests the fields of a line against an expected kind.
fn check_kind_exec(f: &Vec<Vec<char>>, kind: &str) -> (c: Check)
    requires
        f@.len() >= 1,
    ensures
        c == check_kind(texts(f@), kind@),
{
    if !chars_eq(&f[0], kind) {
        Check::Fail
    } else if f.len() < 2 {
        Check::Halt
    } else {
        Check::Pass
    }
}

/// Why a sentence was not taken.
pub enum SentenceError {
    /// The sentence breaks the grammar; the message says where.
    Rejected(String),
    /// The run stops: a line is missing, a line has no value where one is
    /// read, an area is not an `i64` number, or a district has no region to
    /// go to.
    Halt,
}

/// The model of how a sentence ends.
pub ghost enum StepResult {
    /// Taken; for a region, the index of the region the next districts go to.
    Done(int),
    /// Rejected with this message.
    Rejected(Seq<char>),
    /// The run stops.
    Halt,
}

/// The model of the parser's state: the next line, the value stack, the
/// parse tree, the node that the next sentence hangs from, and the tree of
/// territories.
pub ghost struct PState {
    pub pos: int,
    pub stack: Seq<Seq<char>>,
    pub rules: Seq<RuleView>,
    pub last: int,
    pub tree: NodeView,
}

/// The model of the parser's state held in its parts.
pub open spec fn pstate(table: LexemTable, stack: Vec<String>, rules: RuleTree, last: usize, tree: Node) -> PState {
    PState { pos: table.pos as int, stack: strings(stack@), rules: rules@, last: last as int, tree: tree@ }
}

/// The model of a sentence's result.
pub open spec fn result_view<T>(r: Result<T, SentenceError>, done: int) -> StepResult {
    match r {
        Ok(_) => StepResult::Done(done),
        Err(SentenceError::Rejected(m)) => StepResult::Rejected(m@),
        Err(SentenceError::Halt) => StepResult::Halt,
    }
}

/// The parse tree nodes that a region or district sentence adds below `p`,
/// when its first `r` lines after the keyword have passed: "|", then the
/// sentence symbol `head` with the keyword `word`, "N" (":" and "C" with the
/// name), "A" (":" and "B" with the area). A district adds the ":" under "N"
/// as soon as "N" is there; a region adds it once the name has passed.
pub open spec fn part_rules(t: Seq<RuleView>, p: int, r: int, head: Seq<char>, word: Seq<char>, colon_early: bool) -> Seq<RuleView> {
    let n = t.len() as int;
    let t0 = attach(attach(attach(t, p, "|"@), p, head), n + 1, word);
    if r < 1 {
        t0
    } else {
        let t1a = attach(t0, n + 1, "N"@);
        let t1 = if colon_early { attach(t1a, n + 3, ":"@) } else { t1a };
        if r < 2 {
            t1
        } else {
            let t2a = if colon_early { t1 } else { attach(t1, n + 3, ":"@) };
            let t2 = attach(attach(t2a, n + 3, "C"@), n + 5, "name"@);
            if r < 3 {
                t2
            } else {
                let t3 = attach(attach(t2, n + 1, "A"@), n + 7, ":"@);
                if r < 4 {
                    t3
                } else {
                    attach(attach(t3, n + 7, "B"@), n + 9, "area"@)
                }
            }
        }
    }
}

/// The value stack after the first `r` lines of a region or district sentence
/// have passed: the name is pushed once read, then the area.
pub open spec fn part_stack(lines: Seq<Seq<char>>, pos: int, stack: Seq<Seq<char>>, r: int) -> Seq<Seq<char>> {
    if r >= 4 {
        stack.push(value_at(lines, pos, 1)).push(value_at(lines, pos, 3))
    } else if r >= 2 {
        stack.push(value_at(lines, pos, 1))
    } else {
        stack
    }
}

/// The parse tree once a region or district sentence is complete: the area
/// and name nodes carry the values read, and a "D" closes the sentence.
pub open spec fn part_rules_done(t: Seq<RuleView>, p: int, head: Seq<char>, word: Seq<char>, colon_early: bool, name: Seq<char>, area: int) -> Seq<RuleView> {
    let n = t.len() as int;
    attach(rename(rename(part_rules(t, p, 4, head, word, colon_early), n + 10, dec_int(area)), n + 6, name), n + 1, "D"@)
}

/// The index of the first territory of `s` named `name`.
pub open spec fn first_named(s: Seq<NodeView>, name: Seq<char>) -> int {
    choose|j: int| 0 <= j < s.len() && s[j].name == name && forall|i: int| 0 <= i < j ==> s[i].name != name
}

/// The message that rejects a region sentence at its `j`-th line.
pub open spec fn region_message(j: int) -> Seq<char> {
    if j == 1 {
        "Must be String value of region"@
    } else if j == 3 {
        "Must be numeric value of area"@
    } else {
        "Must be delimeter like ':'"@
    }
}

/// A region sentence read at `s.pos` (after its keyword), hung from `parent`.
/// Complete, it adds the region as the last part of the country, makes its
/// "D" the node the next sentence hangs from, and gives the index of the
/// first part of the country with the region's name. Rejected, it leaves
/// the nodes and values it got to.
pub open spec fn region_step(lines: Seq<Seq<char>>, s: PState, parent: int) -> (PState, StepResult) {
    let r = reached(lines, s.pos, part_expects());
    let n = s.rules.len() as int;
    let name = value_at(lines, s.pos, 1);
    match stage(lines, s.pos, part_expects()) {
        Stage::Rejected(j) => (
            PState {
                pos: s.pos + j + 1,
                stack: part_stack(lines, s.pos, s.stack, r),
                rules: part_rules(s.rules, parent, r, "R"@, "region"@, false),
                ..s
            },
            StepResult::Rejected(region_message(j)),
        ),
        Stage::Halt => (s, StepResult::Halt),
        Stage::Complete => match parse_i64_spec(value_at(lines, s.pos, 3)) {
            None => (s, StepResult::Halt),
            Some(area) => {
                let region = NodeView { node_type: NodeType::Region, name, area: area as int, childs: Seq::empty() };
                let tree = NodeView { childs: s.tree.childs.push(region), ..s.tree };
                (
                    PState {
                        pos: s.pos + 4,
                        stack: s.stack,
                        rules: part_rules_done(s.rules, parent, "R"@, "region"@, false, name, area as int),
                        last: n + 11,
                        tree,
                    },
                    StepResult::Done(first_named(tree.childs, name)),
                )
            },
        },
    }
}

/// Reads a region sentence (after its keyword) and hangs its parse tree
/// below `parent`; see `region_step`. On success gives the index of the
/// first part of the country with the region's name.
#[verifier::loop_isolation(false)]
pub fn region_node(
    var_stack: &mut Vec<String>,
    iter_lexem_table: &mut LexemTable,
    tree: &mut Node,
    rules_tree: &mut RuleTree,
    parent: usize,
    last_node: &mut usize,
) -> (res: Result<i64, SentenceError>)
    requires
        parent < old(rules_tree)@.len(),
        rules_wf(old(rules_tree)@),
        old(rules_tree)@.len() + 16 <= usize::MAX,
        old(tree)@.childs.len() < i64::MAX,
    ensures
        old(iter_lexem_table).pos <= old(iter_lexem_table).lines@.len()
            ==> final(iter_lexem_table).pos <= final(iter_lexem_table).lines@.len(),
        ({
            let (s, r) = region_step(old(iter_lexem_table).lines_view(),
                pstate(*old(iter_lexem_table), *old(var_stack), *old(rules_tree), *old(last_node), *old(tree)),
                parent as int);
            &&& result_view(res, match res { Ok(i) => i as int, Err(_) => 0 }) == r
            &&& !(r is Halt) ==> pstate(*final(iter_lexem_table), *final(var_stack), *final(rules_tree), *final(last_node), *final(tree)) == s
        }),
        final(iter_lexem_table).lines == old(iter_lexem_table).lines,
        !(res matches Err(SentenceError::Halt)) ==> rules_wf(final(rules_tree)@),
{
    let ghost lines = iter_lexem_table.lines_view();
    let ghost pos0 = iter_lexem_table.pos as int;
    let ghost exps = part_expects();
    let ghost rules0 = rules_tree@;
    let ghost stack0 = strings(var_stack@);
    proof { lemma_reached_from_ge(lines, pos0, exps, 0); }
    let _d = rules_tree.attach(parent, "|");
    let r_node = rules_tree.attach(parent, "R");
    let _region = rules_tree.attach(r_node, "region");
    assert(rules_tree@ == part_rules(rules0, parent as int, 0, "R"@, "region"@, false));
    assert(exps[0] == Expect::Pair("Delimeter"@, ":"@));
    assert(exps[1] == Expect::Kind("String"@));
    assert(exps[2] == Expect::Pair("Delimeter"@, ":"@));
    assert(exps[3] == Expect::Kind("Number"@));

    // Line 0: ':'
    let f = match iter_lexem_table.next_fields() {
        Some(f) => f,
        None => {
            proof { lemma_reached_stop(lines, pos0, exps, 0); }
            return Err(SentenceError::Halt);
        },
    };
    proof { lemma_split_on_nonempty(lines[pos0], '-'); }
    match check_pair_exec(&f, "Delimeter", ":") {
        Check::Pass => {},
        Check::Fail => {
            proof { lemma_reached_stop(lines, pos0, exps, 0); }
            return Err(SentenceError::Rejected(String::from_str("Must be delimeter like ':'")));
        },
        Check::Halt => {
            proof { lemma_reached_stop(lines, pos0, exps, 0); }
            return Err(SentenceError::Halt);
        },
    }
    proof { lemma_reached_step(lines, pos0, exps, 0); }
    let n_node = rules_tree.attach(r_node, "N");
    assert(rules_tree@ == part_rules(rules0, parent as int, 1, "R"@, "region"@, false));

    // Line 1: the name
    let f = match iter_lexem_table.next_fields() {
        Some(f) => f,
        None => {
            proof { lemma_reached_stop(lines, pos0, exps, 1); }
            return Err(SentenceError::Halt);
        },
    };
    proof { lemma_split_on_nonempty(lines[pos0 + 1], '-'); }
    match check_kind_exec(&f, "String") {
        Check::Pass => {},
        Check::Fail => {
            proof { lemma_reached_stop(lines, pos0, exps, 1); }
            return Err(SentenceError::Rejected(String::from_str("Must be String value of region")));
        },
        Check::Halt => {
            proof { lemma_reached_stop(lines, pos0, exps, 1); }
            return Err(SentenceError::Halt);
        },
    }
    proof { lemma_reached_step(lines, pos0, exps, 1); }
    let _d1 = rules_tree.attach(n_node, ":");
    let c_node = rules_tree.attach(n_node, "C");
    let node_name = rules_tree.attach(c_node, "name");
    assert(rules_tree@ == part_rules(rules0, parent as int, 2, "R"@, "region"@, false));
    let name_chars = f[1].clone();
    var_stack.push(buf_to_lexem(&name_chars));
    assert(strings(var_stack@) =~= part_stack(lines, pos0, stack0, 2));

    // Line 2: ':'
    let f = match iter_lexem_table.next_fields() {
        Some(f) => f,
        None => {
            proof { lemma_reached_stop(lines, pos0, exps, 2); }
            return Err(SentenceError::Halt);
        },
    };
    proof { lemma_split_on_nonempty(lines[pos0 + 2], '-'); }
    match check_pair_exec(&f, "Delimeter", ":") {
        Check::Pass => {},
        Check::Fail => {
            proof { lemma_reached_stop(lines, pos0, exps, 2); }
            return Err(SentenceError::Rejected(String::from_str("Must be delimeter like ':'")));
        },
        Check::Halt => {
            proof { lemma_reached_stop(lines, pos0, exps, 2); }
            return Err(SentenceError::Halt);
        },
    }
    proof { lemma_reached_step(lines, pos0, exps, 2); }
    let a_node = rules_tree.attach(r_node, "A");
    let _d2 = rules_tree.attach(a_node, ":");
    assert(rules_tree@ == part_rules(rules0, parent as int, 3, "R"@, "region"@, false));

    // Line 3: the area
    let f = match iter_lexem_table.next_fields() {
        Some(f) => f,
        None => {
            proof { lemma_reached_stop(lines, pos0, exps, 3); }
            return Err(SentenceError::Halt);
        },
    };
    proof { lemma_split_on_nonempty(lines[pos0 + 3], '-'); }
    match check_kind_exec(&f, "Number") {
        Check::Pass => {},
        Check::Fail => {
            proof { lemma_reached_stop(lines, pos0, exps, 3); }
            return Err(SentenceError::Rejected(String::from_str("Must be numeric value of area")));
        },
        Check::Halt => {
            proof { lemma_reached_stop(lines, pos0, exps, 3); }
            return Err(SentenceError::Halt);
        },
    }
    proof { lemma_reached_step(lines, pos0, exps, 3); }
    let b_node = rules_tree.attach(a_node, "B");
    let area_node = rules_tree.attach(b_node, "area");
    assert(rules_tree@ == part_rules(rules0, parent as int, 4, "R"@, "region"@, false));
    let area_chars = f[1].clone();
    var_stack.push(buf_to_lexem(&area_chars));

    let area_text = match var_stack.pop() {
        Some(t) => t,
        None => { return Err(SentenceError::Halt); },
    };
    assert(area_text@ == area_chars@);
    let area = match parse_i64(&area_chars) {
        Some(a) => a,
        None => { return Err(SentenceError::Halt); },
    };
    let name = match var_stack.pop() {
        Some(t) => t,
        None => { return Err(SentenceError::Halt); },
    };
    assert(strings(var_stack@) =~= stack0);
    rules_tree.rename(area_node, format_i64(area).as_str());
    rules_tree.rename(node_name, name.as_str());
    let name_cp = name.clone();
    let region_node = Node { node_type: NodeType::Region, name, area, childs: Vec::new() };
    assert(region_node@ == (NodeView { node_type: NodeType::Region, name: name_cp@, area: area as int, childs: Seq::empty() })) by {
        assert(region_node.childs@ =~= Seq::<Node>::empty());
    }
    add_child(tree, region_node);
    let d_node = rules_tree.attach(r_node, "D");
    *last_node = d_node;

    let ghost kids = tree@.childs;
    proof { lemma_nodes_view(tree.childs@); }
    let mut index: usize = 0;
    while index < tree.childs.len()
        invariant
            kids == tree@.childs,
            kids.len() == tree.childs@.len(),
            forall|i: int| 0 <= i < kids.len() ==> #[trigger] kids[i] == tree.childs@[i]@,
            kids.len() < i64::MAX + 1,
            kids[kids.len() - 1].name == name_cp@,
            index <= kids.len(),
            forall|i: int| 0 <= i < index ==> kids[i].name != name_cp@,
        decreases kids.len() - index,
    {
        assert(kids[index as int] == tree.childs@[index as int]@);
        if tree.childs[index].name == name_cp {
            assert(first_named(kids, name_cp@) == index as int) by {
                let j = first_named(kids, name_cp@);
                assert(0 <= index < kids.len() && kids[index as int].name == name_cp@
                    && forall|i: int| 0 <= i < index ==> kids[i].name != name_cp@);
                if j < index {
                } else if j > index {
                }
            }
            return Ok(index as i64);
        }
        index = index + 1;
    }
    Err(SentenceError::Rejected(String::from_str("Node is not exist")))
}

/// The message that rejects a district sentence at its `j`-th line.
pub open spec fn district_message(j: int) -> Seq<char> {
    if j == 1 {
        "Must be String value of district"@
    } else if j == 3 {
        "Must be numeric value of area"@
    } else {
        "Must be delimeter like ':'"@
    }
}

/// A district sentence read at `s.pos` (after its keyword), hung from
/// `parent`. Complete, it adds the district as the last part of the country's
/// part with index `node_index`, and makes its "D" the node the next sentence
/// hangs from; where there is no such part the run stops. Rejected, it leaves
/// the nodes and values it got to.
pub open spec fn district_step(lines: Seq<Seq<char>>, s: PState, parent: int, node_index: int) -> (PState, StepResult) {
    let r = reached(lines, s.pos, part_expects());
    let n = s.rules.len() as int;
    let name = value_at(lines, s.pos, 1);
    match stage(lines, s.pos, part_expects()) {
        Stage::Rejected(j) => (
            PState {
                pos: s.pos + j + 1,
                stack: part_stack(lines, s.pos, s.stack, r),
                rules: part_rules(s.rules, parent, r, "E"@, "district"@, true),
                ..s
            },
            StepResult::Rejected(district_message(j)),
        ),
        Stage::Halt => (s, StepResult::Halt),
        Stage::Complete => match parse_i64_spec(value_at(lines, s.pos, 3)) {
            None => (s, StepResult::Halt),
            Some(area) => if 0 <= node_index < s.tree.childs.len() {
                let district = NodeView { node_type: NodeType::District, name, area: area as int, childs: Seq::empty() };
                let region = s.tree.childs[node_index];
                let tree = NodeView {
                    childs: s.tree.childs.update(node_index, NodeView { childs: region.childs.push(district), ..region }),
                    ..s.tree
                };
                (
                    PState {
                        pos: s.pos + 4,
                        stack: s.stack,
                        rules: part_rules_done(s.rules, parent, "E"@, "district"@, true, name, area as int),
                        last: n + 11,
                        tree,
                    },
                    StepResult::Done(0),
                )
            } else {
                (s, StepResult::Halt)
            },
        },
    }
}

/// Reads a district sentence (after its keyword), hangs its parse tree below
/// `parent`, and adds the district to the part of the country with index
/// `node_index`; see `district_step`.
pub fn district_node(
    var_stack: &mut Vec<String>,
    iter_lexem_table: &mut LexemTable,
    tree: &mut Node,
    node_index: i64,
    rules_tree: &mut RuleTree,
    parent: usize,
    last_node: &mut usize,
) -> (res: Result<String, SentenceError>)
    requires
        parent < old(rules_tree)@.len(),
        rules_wf(old(rules_tree)@),
        old(rules_tree)@.len() + 16 <= usize::MAX,
        old(tree)@.childs.len() < i64::MAX,
    ensures
        old(iter_lexem_table).pos <= old(iter_lexem_table).lines@.len()
            ==> final(iter_lexem_table).pos <= final(iter_lexem_table).lines@.len(),
        ({
            let (s, r) = district_step(old(iter_lexem_table).lines_view(),
                pstate(*old(iter_lexem_table), *old(var_stack), *old(rules_tree), *old(last_node), *old(tree)),
                parent as int, node_index as int);
            &&& result_view(res, 0) == r
            &&& !(r is Halt) ==> pstate(*final(iter_lexem_table), *final(var_stack), *final(rules_tree), *final(last_node), *final(tree)) == s
        }),
        res matches Ok(m) ==> m@ == "Node is added"@,
        final(iter_lexem_table).lines == old(iter_lexem_table).lines,
        !(res matches Err(SentenceError::Halt)) ==> rules_wf(final(rules_tree)@),
{
    let ghost lines = iter_lexem_table.lines_view();
    let ghost pos0 = iter_lexem_table.pos as int;
    let ghost exps = part_expects();
    let ghost rules0 = rules_tree@;
    let ghost stack0 = strings(var_stack@);
    proof { lemma_reached_from_ge(lines, pos0, exps, 0); }
    let _d = rules_tree.attach(parent, "|");
    let e_node = rules_tree.attach(parent, "E");
    let _district = rules_tree.attach(e_node, "district");
    assert(rules_tree@ == part_rules(rules0, parent as int, 0, "E"@, "district"@, true));
    assert(exps[0] == Expect::Pair("Delimeter"@, ":"@));
    assert(exps[1] == Expect::Kind("String"@));
    assert(exps[2] == Expect::Pair("Delimeter"@, ":"@));
    assert(exps[3] == Expect::Kind("Number"@));

    // Line 0: ':'
    let f = match iter_lexem_table.next_fields() {
        Some(f) => f,
        None => {
            proof { lemma_reached_stop(lines, pos0, exps, 0); }
            return Err(SentenceError::Halt);
        },
    };
    proof { lemma_split_on_nonempty(lines[pos0], '-'); }
    match check_pair_exec(&f, "Delimeter", ":") {
        Check::Pass => {},
        Check::Fail => {
            proof { lemma_reached_stop(lines, pos0, exps, 0); }
            return Err(SentenceError::Rejected(String::from_str("Must be delimeter like ':'")));
        },
        Check::Halt => {
            proof { lemma_reached_stop(lines, pos0, exps, 0); }
            return Err(SentenceError::Halt);
        },
    }
    proof { lemma_reached_step(lines, pos0, exps, 0); }
    let n_node = rules_tree.attach(e_node, "N");
    let _d1 = rules_tree.attach(n_node, ":");
    assert(rules_tree@ == part_rules(rules0, parent as int, 1, "E"@, "district"@, true));

    // Line 1: the name
    let f = match iter_lexem_table.next_fields() {
        Some(f) => f,
        None => {
            proof { lemma_reached_stop(lines, pos0, exps, 1); }
            return Err(SentenceError::Halt);
        },
    };
    proof { lemma_split_on_nonempty(lines[pos0 + 1], '-'); }
    match check_kind_exec(&f, "String") {
        Check::Pass => {},
        Check::Fail => {
            proof { lemma_reached_stop(lines, pos0, exps, 1); }
            return Err(SentenceError::Rejected(String::from_str("Must be String value of district")));
        },
        Check::Halt => {
            proof { lemma_reached_stop(lines, pos0, exps, 1); }
            return Err(SentenceError::Halt);
        },
    }
    proof { lemma_reached_step(lines, pos0, exps, 1); }
    let c_node = rules_tree.attach(n_node, "C");
    let node_name = rules_tree.attach(c_node, "name");
    assert(rules_tree@ == part_rules(rules0, parent as int, 2, "E"@, "district"@, true));
    let name_chars = f[1].clone();
    var_stack.push(buf_to_lexem(&name_chars));
    assert(strings(var_stack@) =~= part_stack(lines, pos0, stack0, 2));

    // Line 2: ':'
    let f = match iter_lexem_table.next_fields() {
        Some(f) => f,
        None => {
            proof { lemma_reached_stop(lines, pos0, exps, 2); }
            return Err(SentenceError::Halt);
        },
    };
    proof { lemma_split_on_nonempty(lines[pos0 + 2], '-'); }
    match check_pair_exec(&f, "Delimeter", ":") {
        Check::Pass => {},
        Check::Fail => {
            proof { lemma_reached_stop(lines, pos0, exps, 2); }
            return Err(SentenceError::Rejected(String::from_str("Must be delimeter like ':'")));
        },
        Check::Halt => {
            proof { lemma_reached_stop(lines, pos0, exps, 2); }
            return Err(SentenceError::Halt);
        },
    }
    proof { lemma_reached_step(lines, pos0, exps, 2); }
    let a_node = rules_tree.attach(e_node, "A");
    let _d2 = rules_tree.attach(a_node, ":");
    assert(rules_tree@ == part_rules(rules0, parent as int, 3, "E"@, "district"@, true));

    // Line 3: the area
    let f = match iter_lexem_table.next_fields() {
        Some(f) => f,
        None => {
            proof { lemma_reached_stop(lines, pos0, exps, 3); }
            return Err(SentenceError::Halt);
        },
    };
    proof { lemma_split_on_nonempty(lines[pos0 + 3], '-'); }
    match check_kind_exec(&f, "Number") {
        Check::Pass => {},
        Check::Fail => {
            proof { lemma_reached_stop(lines, pos0, exps, 3); }
            return Err(SentenceError::Rejected(String::from_str("Must be numeric value of area")));
        },
        Check::Halt => {
            proof { lemma_reached_stop(lines, pos0, exps, 3); }
            return Err(SentenceError::Halt);
        },
    }
    proof { lemma_reached_step(lines, pos0, exps, 3); }
    let b_node = rules_tree.attach(a_node, "B");
    let area_node = rules_tree.attach(b_node, "area");
    assert(rules_tree@ == part_rules(rules0, parent as int, 4, "E"@, "district"@, true));
    let area_chars = f[1].clone();
    var_stack.push(buf_to_lexem(&area_chars));

    let area_text = match var_stack.pop() {
        Some(t) => t,
        None => { return Err(SentenceError::Halt); },
    };
    assert(area_text@ == area_chars@);
    let area = match parse_i64(&area_chars) {
        Some(a) => a,
        None => { return Err(SentenceError::Halt); },
    };
    let name = match var_stack.pop() {
        Some(t) => t,
        None => { return Err(SentenceError::Halt); },
    };
    assert(strings(var_stack@) =~= stack0);
    rules_tree.rename(area_node, format_i64(area).as_str());
    rules_tree.rename(node_name, name.as_str());
    let name_cp = name.clone();
    let district_node = Node { node_type: NodeType::District, name, area, childs: Vec::new() };
    assert(district_node@ == (NodeView { node_type: NodeType::District, name: name_cp@, area: area as int, childs: Seq::empty() })) by {
        assert(district_node.childs@ =~= Seq::<Node>::empty());
    }
    let d_node = rules_tree.attach(e_node, "D");
    *last_node = d_node;
    proof { lemma_nodes_view(tree.childs@); }
    if node_index < 0 || node_index >= tree.childs.len() as i64 {
        return Err(SentenceError::Halt);
    }
    let k = node_index as usize;
    let ghost region_before = tree.childs@[k as int];
    add_child(&mut tree.childs[k], district_node);
    proof { lemma_nodes_view_update(old(tree).childs@, k as int, tree.childs@[k as int]); }
    assert(tree.childs@ == old(tree).childs@.update(k as int, tree.childs@[k as int]));
    Ok(String::from_str("Node is added"))
}

/// The tree before a country is read: a root with nothing in it.
pub open spec fn empty_tree() -> NodeView {
    NodeView { node_type: NodeType::Root, name: Seq::empty(), area: 0, childs: Seq::empty() }
}

/// The parse tree nodes that a country sentence adds below `p` when its
/// first `r` lines have passed: "country", "N" (":" and "C" with the name),
/// "A" (":" and "B" with the area).
pub open spec fn country_rules(t: Seq<RuleView>, p: int, r: int) -> Seq<RuleView> {
    let n = t.len() as int;
    if r < 1 {
        t
    } else {
        let t1 = attach(t, p, "country"@);
        if r < 2 {
            t1
        } else {
            let t2 = attach(attach(t1, p, "N"@), n + 1, ":"@);
            if r < 3 {
                t2
            } else {
                let t3 = attach(attach(t2, n + 1, "C"@), n + 3, "name"@);
                if r < 4 {
                    t3
                } else {
                    let t4 = attach(attach(t3, p, "A"@), n + 5, ":"@);
                    if r < 5 {
                        t4
                    } else {
                        attach(attach(t4, n + 5, "B"@), n + 7, "area"@)
                    }
                }
            }
        }
    }
}

/// The value stack after the first `r` lines of a country sentence have
/// passed: the keyword, the name and the area are pushed as they are read.
pub open spec fn country_stack(lines: Seq<Seq<char>>, pos: int, stack: Seq<Seq<char>>, r: int) -> Seq<Seq<char>> {
    if r >= 5 {
        stack.push(value_at(lines, pos, 0)).push(value_at(lines, pos, 2)).push(value_at(lines, pos, 4))
    } else if r >= 3 {
        stack.push(value_at(lines, pos, 0)).push(value_at(lines, pos, 2))
    } else if r >= 1 {
        stack.push(value_at(lines, pos, 0))
    } else {
        stack
    }
}

/// The message that rejects a country sentence at its `j`-th line.
pub open spec fn country_message(j: int) -> Seq<char> {
    if j == 0 {
        "Must key word 'country'"@
    } else if j == 1 {
        "Must be delimeter like a ':' after 'country'"@
    } else if j == 2 {
        "Must be name of country in a String format"@
    } else if j == 3 {
        "Must be delimeter like a ':' after name of country"@
    } else {
        "Must be Numeric value of area"@
    }
}

/// A country sentence read at `s.pos`, hung from `parent`. Complete, it gives
/// the country (as `tree`, with no parts yet) and makes its "D" the node the
/// next sentence hangs from. Rejected, it leaves the nodes and values it got
/// to.
pub open spec fn country_step(lines: Seq<Seq<char>>, s: PState, parent: int) -> (PState, StepResult) {
    let r = reached(lines, s.pos, country_expects());
    let n = s.rules.len() as int;
    let name = value_at(lines, s.pos, 2);
    match stage(lines, s.pos, country_expects()) {
        Stage::Rejected(j) => (
            PState {
                pos: s.pos + j + 1,
                stack: country_stack(lines, s.pos, s.stack, r),
                rules: country_rules(s.rules, parent, r),
                ..s
            },
            StepResult::Rejected(country_message(j)),
        ),
        Stage::Halt => (s, StepResult::Halt),
        Stage::Complete => match parse_i64_spec(value_at(lines, s.pos, 4)) {
            None => (s, StepResult::Halt),
            Some(area) => (
                PState {
                    pos: s.pos + 5,
                    stack: s.stack,
                    rules: attach(rename(rename(country_rules(s.rules, parent, 5), n + 8, dec_int(area as int)), n + 4, name), parent, "D"@),
                    last: n + 9,
                    tree: NodeView { node_type: NodeType::Country, name, area: area as int, childs: Seq::empty() },
                },
                StepResult::Done(0),
            ),
        },
    }
}

/// Reads the country sentence and hangs its parse tree below `parent`; on
/// success gives the country, with no parts yet. See `country_step`.
pub fn country_node(
    var_stack: &mut Vec<String>,
    iter_lexem_table: &mut LexemTable,
    rules_tree: &mut RuleTree,
    parent: usize,
    last_node: &mut usize,
) -> (res: Result<Node, SentenceError>)
    requires
        parent < old(rules_tree)@.len(),
        rules_wf(old(rules_tree)@),
        old(rules_tree)@.len() + 16 <= usize::MAX,
    ensures
        old(iter_lexem_table).pos <= old(iter_lexem_table).lines@.len()
            ==> final(iter_lexem_table).pos <= final(iter_lexem_table).lines@.len(),
        ({
            let (s, r) = country_step(old(iter_lexem_table).lines_view(),
                PState {
                    pos: old(iter_lexem_table).pos as int,
                    stack: strings(old(var_stack)@),
                    rules: old(rules_tree)@,
                    last: *old(last_node) as int,
                    tree: empty_tree(),
                },
                parent as int);
            &&& result_view(res, 0) == r
            &&& !(r is Halt) ==> {
                &&& final(iter_lexem_table).pos == s.pos
                &&& strings(final(var_stack)@) == s.stack
                &&& final(rules_tree)@ == s.rules
                &&& *final(last_node) == s.last
            }
            &&& res matches Ok(node) ==> node@ == s.tree
        }),
        final(iter_lexem_table).lines == old(iter_lexem_table).lines,
        !(res matches Err(SentenceError::Halt)) ==> rules_wf(final(rules_tree)@),
{
    let ghost lines = iter_lexem_table.lines_view();
    let ghost pos0 = iter_lexem_table.pos as int;
    let ghost exps = country_expects();
    let ghost rules0 = rules_tree@;
    let ghost stack0 = strings(var_stack@);
    proof { lemma_reached_from_ge(lines, pos0, exps, 0); }
    assert(exps[0] == Expect::Pair("String"@, "country"@));
    assert(exps[1] == Expect::Pair("Delimeter"@, ":"@));
    assert(exps[2] == Expect::Kind("String"@));
    assert(exps[3] == Expect::Pair("Delimeter"@, ":"@));
    assert(exps[4] == Expect::Kind("Number"@));

    // Line 0
    let f = match iter_lexem_table.next_fields() {
        Some(f) => f,
        None => {
            proof { lemma_reached_stop(lines, pos0, exps, 0); }
            return Err(SentenceError::Halt);
        },
    };
    proof { lemma_split_on_nonempty(lines[pos0 + 0], '-'); }
    match check_pair_exec(&f, "String", "country") {
        Check::Pass => {},
        Check::Fail => {
            proof { lemma_reached_stop(lines, pos0, exps, 0); }
            return Err(SentenceError::Rejected(String::from_str("Must key word 'country'")));
        },
        Check::Halt => {
            proof { lemma_reached_stop(lines, pos0, exps, 0); }
            return Err(SentenceError::Halt);
        },
    }
    proof { lemma_reached_step(lines, pos0, exps, 0); }
    let _node_country = rules_tree.attach(parent, "country");
    let keyword = f[1].clone();
    var_stack.push(buf_to_lexem(&keyword));
    assert(rules_tree@ == country_rules(rules0, parent as int, 1));
    assert(strings(var_stack@) =~= country_stack(lines, pos0, stack0, 1));

    // Line 1
    let f = match iter_lexem_table.next_fields() {
        Some(f) => f,
        None => {
            proof { lemma_reached_stop(lines, pos0, exps, 1); }
            return Err(SentenceError::Halt);
        },
    };
    proof { lemma_split_on_nonempty(lines[pos0 + 1], '-'); }
    match check_pair_exec(&f, "Delimeter", ":") {
        Check::Pass => {},
        Check::Fail => {
            proof { lemma_reached_stop(lines, pos0, exps, 1); }
            return Err(SentenceError::Rejected(String::from_str("Must be delimeter like a ':' after 'country'")));
        },
        Check::Halt => {
            proof { lemma_reached_stop(lines, pos0, exps, 1); }
            return Err(SentenceError::Halt);
        },
    }
    proof { lemma_reached_step(lines, pos0, exps, 1); }
    let delim = rules_tree.attach(parent, "N");
    let _delim_d = rules_tree.attach(delim, ":");
    assert(rules_tree@ == country_rules(rules0, parent as int, 2));

    // Line 2
    let f = match iter_lexem_table.next_fields() {
        Some(f) => f,
        None => {
            proof { lemma_reached_stop(lines, pos0, exps, 2); }
            return Err(SentenceError::Halt);
        },
    };
    proof { lemma_split_on_nonempty(lines[pos0 + 2], '-'); }
    match check_kind_exec(&f, "String") {
        Check::Pass => {},
        Check::Fail => {
            proof { lemma_reached_stop(lines, pos0, exps, 2); }
            return Err(SentenceError::Rejected(String::from_str("Must be name of country in a String format")));
        },
        Check::Halt => {
            proof { lemma_reached_stop(lines, pos0, exps, 2); }
            return Err(SentenceError::Halt);
        },
    }
    proof { lemma_reached_step(lines, pos0, exps, 2); }
    let c_node = rules_tree.attach(delim, "C");
    let node_name = rules_tree.attach(c_node, "name");
    let name_chars = f[1].clone();
    var_stack.push(buf_to_lexem(&name_chars));
    assert(rules_tree@ == country_rules(rules0, parent as int, 3));
    assert(strings(var_stack@) =~= country_stack(lines, pos0, stack0, 3));

    // Line 3
    let f = match iter_lexem_table.next_fields() {
        Some(f) => f,
        None => {
            proof { lemma_reached_stop(lines, pos0, exps, 3); }
            return Err(SentenceError::Halt);
        },
    };
    proof { lemma_split_on_nonempty(lines[pos0 + 3], '-'); }
    match check_pair_exec(&f, "Delimeter", ":") {
        Check::Pass => {},
        Check::Fail => {
            proof { lemma_reached_stop(lines, pos0, exps, 3); }
            return Err(SentenceError::Rejected(String::from_str("Must be delimeter like a ':' after name of country")));
        },
        Check::Halt => {
            proof { lemma_reached_stop(lines, pos0, exps, 3); }
            return Err(SentenceError::Halt);
        },
    }
    proof { lemma_reached_step(lines, pos0, exps, 3); }
    let a_node = rules_tree.attach(parent, "A");
    let _delim2 = rules_tree.attach(a_node, ":");
    assert(rules_tree@ == country_rules(rules0, parent as int, 4));

    // Line 4
    let f = match iter_lexem_table.next_fields() {
        Some(f) => f,
        None => {
            proof { lemma_reached_stop(lines, pos0, exps, 4); }
            return Err(SentenceError::Halt);
        },
    };
    proof { lemma_split_on_nonempty(lines[pos0 + 4], '-'); }
    match check_kind_exec(&f, "Number") {
        Check::Pass => {},
        Check::Fail => {
            proof { lemma_reached_stop(lines, pos0, exps, 4); }
            return Err(SentenceError::Rejected(String::from_str("Must be Numeric value of area")));
        },
        Check::Halt => {
            proof { lemma_reached_stop(lines, pos0, exps, 4); }
            return Err(SentenceError::Halt);
        },
    }
    proof { lemma_reached_step(lines, pos0, exps, 4); }
    let b_node = rules_tree.attach(a_node, "B");
    let area_node = rules_tree.attach(b_node, "area");
    assert(rules_tree@ == country_rules(rules0, parent as int, 5));
    let area_chars = f[1].clone();
    var_stack.push(buf_to_lexem(&area_chars));

    let area_text = match var_stack.pop() {
        Some(t) => t,
        None => { return Err(SentenceError::Halt); },
    };
    assert(area_text@ == area_chars@);
    let area = match parse_i64(&area_chars) {
        Some(a) => a,
        None => { return Err(SentenceError::Halt); },
    };
    let name = match var_stack.pop() {
        Some(t) => t,
        None => { return Err(SentenceError::Halt); },
    };
    rules_tree.rename(area_node, format_i64(area).as_str());
    rules_tree.rename(node_name, name.as_str());
    let _ = var_stack.pop();
    assert(strings(var_stack@) =~= stack0);
    let country_node = Node { node_type: NodeType::Country, name, area, childs: Vec::new() };
    assert(country_node.childs@ =~= Seq::<Node>::empty());
    let d_node = rules_tree.attach(parent, "D");
    *last_node = d_node;
    Ok(country_node)
}

/// The model of the parser's state between sentences: its parts, the index of
/// the region the next districts go to, and the lines printed so far.
pub ghost struct RunState {
    pub p: PState,
    pub node_index: int,
    pub log: Seq<Seq<char>>,
}

/// How the loop over the sentences ends.
pub ghost enum LoopEnd {
    /// The lines ran out, or an empty line (or one starting with '-') came.
    Break,
    /// The text breaks the grammar between sentences; the run fails with this message.
    Returned(Seq<char>),
    /// The run stops.
    Halt,
}

/// The message for a missing '|' between sentences.
pub open spec fn bar_message() -> Seq<char> {
    "Must be delimeter '|' after 'Region' or 'District' sentence"@
}

/// The message for a sentence that is neither a region nor a district.
pub open spec fn keyword_message() -> Seq<char> {
    "Must key word 'region' or 'district'"@
}

/// One turn of the loop over the sentences: read a line; stop at the end of
/// the lines or at an empty first field; a line whose first field is not
/// "Delimeter" must have "|" as its second field; then read the keyword line
/// and the region or district sentence. A rejected sentence prints its
/// message and the loop goes on. `None` means the loop goes on.
pub open spec fn loop_step(lines: Seq<Seq<char>>, st: RunState) -> (RunState, Option<LoopEnd>) {
    let pos = st.p.pos;
    if pos < 0 || pos >= lines.len() {
        (st, Some(LoopEnd::Break))
    } else {
        let f = fields(lines[pos]);
        let st1 = RunState { p: PState { pos: pos + 1, ..st.p }, ..st };
        if f[0] == Seq::<char>::empty() {
            (st1, Some(LoopEnd::Break))
        } else if f[0] != "Delimeter"@ && f.len() < 2 {
            (st1, Some(LoopEnd::Halt))
        } else if f[0] != "Delimeter"@ && f[1] != "|"@ {
            (st1, Some(LoopEnd::Returned(bar_message())))
        } else if pos + 1 >= lines.len() {
            (st1, Some(LoopEnd::Halt))
        } else {
            let g = fields(lines[pos + 1]);
            let p2 = PState { pos: pos + 2, ..st.p };
            let st2 = RunState { p: p2, ..st };
            if g[0] == "String"@ && g.len() < 2 {
                (st2, Some(LoopEnd::Halt))
            } else if g[0] == "String"@ && g[1] == "region"@ {
                let (p3, r) = region_step(lines, p2, st.p.last);
                match r {
                    StepResult::Done(i) => (RunState { p: p3, node_index: i, log: st.log }, None),
                    StepResult::Rejected(m) => (RunState { p: p3, node_index: st.node_index, log: st.log.push(m) }, None),
                    StepResult::Halt => (st2, Some(LoopEnd::Halt)),
                }
            } else if g[0] == "String"@ && g[1] == "district"@ {
                let (p3, r) = district_step(lines, p2, st.p.last, st.node_index);
                match r {
                    StepResult::Done(_) => (RunState { p: p3, node_index: st.node_index, log: st.log }, None),
                    StepResult::Rejected(m) => (RunState { p: p3, node_index: st.node_index, log: st.log.push(m) }, None),
                    StepResult::Halt => (st2, Some(LoopEnd::Halt)),
                }
            } else {
                (st2, Some(LoopEnd::Returned(keyword_message())))
            }
        }
    }
}

/// The loop over the sentences from `st` to its end.
pub open spec fn run_loop(lines: Seq<Seq<char>>, st: RunState) -> (RunState, LoopEnd)
    decreases lines.len() - st.p.pos,
{
    let (next, end) = loop_step(lines, st);
    match end {
        Some(e) => (next, e),
        None => if st.p.pos < next.p.pos <= lines.len() {
            run_loop(lines, next)
        } else {
            (next, LoopEnd::Halt)
        },
    }
}

/// The parser's state before the country: the first line, an empty stack, a
/// parse tree made of its root "S", and no territory yet.
pub open spec fn initial_pstate() -> PState {
    PState {
        pos: 0,
        stack: Seq::empty(),
        rules: seq![RuleView { name: "S"@, children: Seq::empty() }],
        last: 0,
        tree: empty_tree(),
    }
}

/// What the parser prints and gives once the loop over the sentences has
/// ended in `st` as `end`: after a `Break` the parse tree is printed and the
/// areas are checked (`check_run`); the run succeeds exactly when the tree of
/// territories is valid. `None` stands for a run that stops, also where a sum
/// of areas leaves `i64`.
pub open spec fn finish_run(st: RunState, end: LoopEnd) -> (Seq<Seq<char>>, Option<Result<Seq<char>, Seq<char>>>) {
    match end {
        LoopEnd::Halt => (st.log, None),
        LoopEnd::Returned(m) => (st.log, Some(Err(m))),
        LoopEnd::Break => {
            let printed = st.log.push("Parse tree output"@) + render(st.p.rules, 0, 0);
            let (msgs, verdict) = check_run(st.p.tree);
            match verdict {
                None => (printed + msgs, None),
                Some(true) => ((printed + msgs).push("Structure is valid"@), Some(Ok("OKi doki"@))),
                Some(false) => (printed + msgs, Some(Err("Structure is not valid"@))),
            }
        },
    }
}

/// What the parser prints and gives for a lexem table with these lines: a
/// country sentence that does not complete stops the run; otherwise the loop
/// over the sentences runs and the run finishes as `finish_run` says.
pub open spec fn parse_run(lines: Seq<Seq<char>>) -> (Seq<Seq<char>>, Option<Result<Seq<char>, Seq<char>>>) {
    let (c, r) = country_step(lines, initial_pstate(), 0);
    if !(r is Done) {
        (Seq::empty(), None)
    } else {
        let (st, end) = run_loop(lines, RunState { p: c, node_index: 0, log: Seq::empty() });
        finish_run(st, end)
    }
}

/// What a run of the parser prints, in order, and how it ends: `None` for a
/// run that stops, else its result.
pub struct ParseRun {
    pub log: Vec<String>,
    pub result: Option<Result<String, String>>,
}

/// The model of a run's result.
pub open spec fn run_result_view(r: Option<Result<String, String>>) -> Option<Result<Seq<char>, Seq<char>>> {
    match r {
        None => None,
        Some(Ok(s)) => Some(Ok(s@)),
        Some(Err(s)) => Some(Err(s@)),
    }
}

/// A district: no parts.
pub open spec fn is_district(n: NodeView) -> bool {
    n.node_type == NodeType::District && n.childs.len() == 0
}

/// A region whose parts are districts.
pub open spec fn is_region(n: NodeView) -> bool {
    n.node_type == NodeType::Region && forall|i: int| 0 <= i < n.childs.len() ==> is_district(#[trigger] n.childs[i])
}

/// A country whose parts are regions made of districts.
pub open spec fn is_country_tree(n: NodeView) -> bool {
    n.node_type == NodeType::Country && forall|i: int| 0 <= i < n.childs.len() ==> is_region(#[trigger] n.childs[i])
}

proof fn lemma_loop_step_shape(lines: Seq<Seq<char>>, st: RunState)
    requires
        is_country_tree(st.p.tree),
    ensures
        is_country_tree(loop_step(lines, st).0.p.tree),
{
    let pos = st.p.pos;
    if 0 <= pos && pos + 1 < lines.len() {
        let g = fields(lines[pos + 1]);
        let p2 = PState { pos: pos + 2, ..st.p };
        let t = st.p.tree;
        if g[0] == "String"@ && g.len() >= 2 && g[1] == "region"@ {
            let (p3, r) = region_step(lines, p2, st.p.last);
            if r is Done {
                let kids = p3.tree.childs;
                assert forall|i: int| 0 <= i < kids.len() implies is_region(#[trigger] kids[i]) by {
                    if i < t.childs.len() {
                        assert(kids[i] == t.childs[i]);
                    }
                }
            }
        } else if g[0] == "String"@ && g.len() >= 2 && g[1] == "district"@ {
            let (p3, r) = district_step(lines, p2, st.p.last, st.node_index);
            if r is Done {
                let k = st.node_index;
                let kids = p3.tree.childs;
                assert forall|i: int| 0 <= i < kids.len() implies is_region(#[trigger] kids[i]) by {
                    if i != k {
                        assert(kids[i] == t.childs[i]);
                    } else {
                        let reg = kids[i];
                        assert(is_region(t.childs[k]));
                        assert forall|j: int| 0 <= j < reg.childs.len() implies is_district(#[trigger] reg.childs[j]) by {
                            if j < t.childs[k].childs.len() {
                                assert(reg.childs[j] == t.childs[k].childs[j]);
                            }
                        }
                    }
                }
            }
        }
    }
}

proof fn lemma_run_loop_shape(lines: Seq<Seq<char>>, st: RunState)
    requires
        is_country_tree(st.p.tree),
    ensures
        is_country_tree(run_loop(lines, st).0.p.tree),
    decreases lines.len() - st.p.pos,
{
    lemma_loop_step_shape(lines, st);
    let (next, end) = loop_step(lines, st);
    if end is None && st.p.pos < next.p.pos <= lines.len() {
        lemma_run_loop_shape(lines, next);
    }
}

/// Whatever the lexem table, the tree of territories that the parser checks
/// is a country whose parts are regions, whose parts are districts, which
/// have no parts.
pub proof fn law_country_tree_shape(lines: Seq<Seq<char>>)
    ensures
        ({
            let (c, r) = country_step(lines, initial_pstate(), 0);
            r is Done ==> is_country_tree(run_loop(lines, RunState { p: c, node_index: 0, log: Seq::empty() }).0.p.tree)
        }),
{
    let (c, r) = country_step(lines, initial_pstate(), 0);
    if r is Done {
        lemma_run_loop_shape(lines, RunState { p: c, node_index: 0, log: Seq::empty() });
    }
}

/// A rejected region or district sentence leaves the tree of territories and
/// the node the next sentence hangs from as they were; its message is
/// printed and the loop goes on.
pub proof fn law_rejected_sentence_keeps_territories(lines: Seq<Seq<char>>, s: PState, parent: int, node_index: int)
    ensures
        region_step(lines, s, parent).1 is Rejected ==>
            region_step(lines, s, parent).0.tree == s.tree && region_step(lines, s, parent).0.last == s.last,
        district_step(lines, s, parent, node_index).1 is Rejected ==>
            district_step(lines, s, parent, node_index).0.tree == s.tree
            && district_step(lines, s, parent, node_index).0.last == s.last,
{
}

/// Every expected line before the count passed, and is there.
pub proof fn lemma_reached_passes(lines: Seq<Seq<char>>, pos: int, exps: Seq<Expect>, k: int)
    requires
        0 <= k < exps.len(),
        0 <= pos,
        reached(lines, pos, exps) >= k + 1,
    ensures
        pos + k < lines.len(),
        check_line(lines[pos + k], exps[k]) == Check::Pass,
{
    lemma_reached_from(lines, pos, exps, 0, k);
}

/// Where some part is named `name`, there is a first such part.
proof fn lemma_first_named_exists(s: Seq<NodeView>, name: Seq<char>, k: int)
    requires
        0 <= k < s.len(),
        s[k].name == name,
    ensures
        exists|j: int| 0 <= j < s.len() && s[j].name == name && forall|i: int| 0 <= i < j ==> s[i].name != name,
    decreases k,
{
    if exists|i: int| 0 <= i < k && s[i].name == name {
        let i = choose|i: int| 0 <= i < k && s[i].name == name;
        lemma_first_named_exists(s, name, i);
    } else {
        assert(forall|i: int| 0 <= i < k ==> s[i].name != name);
    }
}

/// A completed country sentence gives a country, with no parts yet, whose
/// name is the value of its third line (a String lexem) and whose area is the
/// number read from the value of its fifth line (a Number lexem).
pub proof fn law_country_reads_name_and_area(lines: Seq<Seq<char>>, s: PState, parent: int)
    requires
        0 <= s.pos,
    ensures
        country_step(lines, s, parent).1 is Done ==> {
            let t = country_step(lines, s, parent).0.tree;
            &&& s.pos + 5 <= lines.len()
            &&& fields(lines[s.pos + 2])[0] == "String"@
            &&& fields(lines[s.pos + 4])[0] == "Number"@
            &&& t.node_type == NodeType::Country
            &&& t.name == fields(lines[s.pos + 2])[1]
            &&& parse_i64_spec(fields(lines[s.pos + 4])[1]) == Some(t.area as i64)
            &&& t.childs.len() == 0
        },
{
    let exps = country_expects();
    if country_step(lines, s, parent).1 is Done {
        lemma_reached_passes(lines, s.pos, exps, 2);
        lemma_reached_passes(lines, s.pos, exps, 4);
    }
}

/// A completed region sentence adds one part to the country, after the parts
/// already there, which stay as they were: a region with no parts whose name
/// is the value of the sentence's second line (a String lexem) and whose
/// area is the number read from its fourth line (a Number lexem). The index it
/// gives is that of the first part of the country with that name.
#[verifier::rlimit(50)]
pub proof fn law_region_adds_named_region(lines: Seq<Seq<char>>, s: PState, parent: int)
    requires
        0 <= s.pos,
    ensures
        region_step(lines, s, parent).1 matches StepResult::Done(i) ==> {
            let t = region_step(lines, s, parent).0.tree;
            let name = fields(lines[s.pos + 1])[1];
            &&& s.pos + 4 <= lines.len()
            &&& fields(lines[s.pos + 1])[0] == "String"@
            &&& fields(lines[s.pos + 3])[0] == "Number"@
            &&& t.node_type == s.tree.node_type && t.name == s.tree.name && t.area == s.tree.area
            &&& t.childs.len() == s.tree.childs.len() + 1
            &&& forall|j: int| 0 <= j < s.tree.childs.len() ==> t.childs[j] == s.tree.childs[j]
            &&& t.childs.last().node_type == NodeType::Region
            &&& t.childs.last().name == name
            &&& parse_i64_spec(fields(lines[s.pos + 3])[1]) == Some(t.childs.last().area as i64)
            &&& t.childs.last().childs.len() == 0
            &&& 0 <= i < t.childs.len()
            &&& t.childs[i].name == name
            &&& forall|j: int| 0 <= j < i ==> t.childs[j].name != name
        },
{
    let exps = part_expects();
    if region_step(lines, s, parent).1 is Done {
        lemma_reached_passes(lines, s.pos, exps, 1);
        lemma_reached_passes(lines, s.pos, exps, 3);
        let t = region_step(lines, s, parent).0.tree;
        let name = fields(lines[s.pos + 1])[1];
        lemma_first_named_exists(t.childs, name, t.childs.len() - 1);
    }
}

/// A completed district sentence adds a district with no parts, named by the
/// value of its second line and with the area read from its fourth line, as
/// the last part of the country's part at `node_index`; every other part of
/// the country, and that part's own name and area, stay as they were.
#[verifier::rlimit(50)]
pub proof fn law_district_goes_to_indexed_region(lines: Seq<Seq<char>>, s: PState, parent: int, node_index: int)
    requires
        0 <= s.pos,
    ensures
        district_step(lines, s, parent, node_index).1 is Done ==> {
            let t = district_step(lines, s, parent, node_index).0.tree;
            let old_part = s.tree.childs[node_index];
            let new_part = t.childs[node_index];
            &&& s.pos + 4 <= lines.len()
            &&& 0 <= node_index < s.tree.childs.len()
            &&& t.node_type == s.tree.node_type && t.name == s.tree.name && t.area == s.tree.area
            &&& t.childs.len() == s.tree.childs.len()
            &&& forall|j: int| 0 <= j < t.childs.len() && j != node_index ==> t.childs[j] == s.tree.childs[j]
            &&& new_part.node_type == old_part.node_type && new_part.name == old_part.name && new_part.area == old_part.area
            &&& new_part.childs.len() == old_part.childs.len() + 1
            &&& forall|j: int| 0 <= j < old_part.childs.len() ==> new_part.childs[j] == old_part.childs[j]
            &&& new_part.childs.last().node_type == NodeType::District
            &&& new_part.childs.last().name == fields(lines[s.pos + 1])[1]
            &&& parse_i64_spec(fields(lines[s.pos + 3])[1]) == Some(new_part.childs.last().area as i64)
            &&& new_part.childs.last().childs.len() == 0
        },
{
    let exps = part_expects();
    if district_step(lines, s, parent, node_index).1 is Done {
        lemma_reached_passes(lines, s.pos, exps, 1);
        lemma_reached_passes(lines, s.pos, exps, 3);
    }
}

/// In the loop over the sentences, a turn that adds a part to the country
/// (a completed region) makes the districts that follow go to the first part
/// carrying the new part's name, which is the new region unless an earlier
/// part has its name; a turn that adds no part keeps the index the districts
/// go to, and either leaves the tree as it was or adds one district as the
/// last part of the country's part at that index.
#[verifier::rlimit(50)]
pub proof fn law_turn_sets_district_target(lines: Seq<Seq<char>>, st: RunState)
    requires
        0 <= st.p.pos,
    ensures
        ({
            let (next, end) = loop_step(lines, st);
            let kids = next.p.tree.childs;
            end is None && kids.len() == st.p.tree.childs.len() + 1 ==> {
                &&& 0 <= next.node_index < kids.len()
                &&& kids[next.node_index].name == kids.last().name
                &&& forall|j: int| 0 <= j < next.node_index ==> kids[j].name != kids.last().name
            }
        }),
        ({
            let (next, end) = loop_step(lines, st);
            end is None && next.p.tree.childs.len() == st.p.tree.childs.len() ==> next.node_index == st.node_index
        }),
        ({
            let (next, end) = loop_step(lines, st);
            let kids = next.p.tree.childs;
            let old_kids = st.p.tree.childs;
            let k = st.node_index;
            end is None && kids.len() == old_kids.len() ==> {
                ||| next.p.tree == st.p.tree
                ||| {
                    &&& 0 <= k < kids.len()
                    &&& forall|j: int| 0 <= j < kids.len() && j != k ==> kids[j] == old_kids[j]
                    &&& kids[k].name == old_kids[k].name
                    &&& kids[k].childs.len() == old_kids[k].childs.len() + 1
                    &&& forall|j: int| 0 <= j < old_kids[k].childs.len() ==> kids[k].childs[j] == old_kids[k].childs[j]
                    &&& kids[k].childs.last().node_type == NodeType::District
                }
            }
        }),
{
    let pos = st.p.pos;
    if pos + 1 < lines.len() {
        let p2 = PState { pos: pos + 2, ..st.p };
        law_region_adds_named_region(lines, p2, st.p.last);
        law_district_goes_to_indexed_region(lines, p2, st.p.last, st.node_index);
    }
}

/// The model of the running parser's state.
pub open spec fn run_state(table: LexemTable, stack: Vec<String>, rules: RuleTree, last: usize, tree: Node, node_index: i64, log: Vec<String>) -> RunState {
    RunState { p: pstate(table, stack, rules, last, tree), node_index: node_index as int, log: strings(log@) }
}

/// How a turn of the loop over the sentences ends the loop.
pub enum TurnEnd {
    /// The lines ran out, or an empty one came: the parse tree is printed and
    /// the areas are checked.
    Break,
    /// The run fails with this message.
    Returned(String),
    /// The run stops.
    Halt,
}

/// The model of how a turn ends the loop.
pub open spec fn turn_end_view(e: TurnEnd) -> LoopEnd {
    match e {
        TurnEnd::Break => LoopEnd::Break,
        TurnEnd::Returned(m) => LoopEnd::Returned(m@),
        TurnEnd::Halt => LoopEnd::Halt,
    }
}

/// One turn of the loop over the sentences, as `loop_step` says: `None` when
/// the loop goes on.
fn sentence_turn(
    var_stack: &mut Vec<String>,
    iter_lexem_table: &mut LexemTable,
    tree: &mut Node,
    rules_tree: &mut RuleTree,
    last_node: &mut usize,
    node_index: &mut i64,
    log: &mut Vec<String>,
) -> (end: Option<TurnEnd>)
    requires
        old(iter_lexem_table).pos <= old(iter_lexem_table).lines@.len(),
        old(iter_lexem_table).lines@.len() <= usize::MAX / 8 + 1,
        rules_wf(old(rules_tree)@),
        *old(last_node) < old(rules_tree)@.len(),
        old(rules_tree)@.len() <= 3 * old(iter_lexem_table).pos + 1,
        old(tree)@.childs.len() <= old(iter_lexem_table).pos,
    ensures
        ({
            let lines = old(iter_lexem_table).lines_view();
            let (next, e) = loop_step(lines,
                run_state(*old(iter_lexem_table), *old(var_stack), *old(rules_tree), *old(last_node), *old(tree), *old(node_index), *old(log)));
            &&& match end {
                None => e is None && run_state(*final(iter_lexem_table), *final(var_stack), *final(rules_tree), *final(last_node), *final(tree), *final(node_index), *final(log)) == next,
                Some(t) => e == Some(turn_end_view(t)) && strings(final(log)@) == next.log,
            }
        }),
        end matches Some(TurnEnd::Break) ==> final(rules_tree)@ == old(rules_tree)@ && final(tree)@ == old(tree)@,
        final(iter_lexem_table).lines == old(iter_lexem_table).lines,
        end is None ==> {
            &&& old(iter_lexem_table).pos < final(iter_lexem_table).pos <= final(iter_lexem_table).lines@.len()
            &&& rules_wf(final(rules_tree)@)
            &&& *final(last_node) < final(rules_tree)@.len()
            &&& final(rules_tree)@.len() <= 3 * final(iter_lexem_table).pos + 1
            &&& final(tree)@.childs.len() <= final(iter_lexem_table).pos
        },
{
    let ghost lines = iter_lexem_table.lines_view();
    let ghost pos = iter_lexem_table.pos as int;
    let f = match iter_lexem_table.next_fields() {
        Some(f) => f,
        None => { return Some(TurnEnd::Break); },
    };
    proof { lemma_split_on_nonempty(lines[pos], '-'); }
    if f[0].len() == 0 {
        assert(texts(f@)[0] =~= Seq::<char>::empty());
        return Some(TurnEnd::Break);
    }
    assert(texts(f@)[0] != Seq::<char>::empty());
    if !chars_eq(&f[0], "Delimeter") {
        if f.len() < 2 {
            return Some(TurnEnd::Halt);
        }
        if !chars_eq(&f[1], "|") {
            return Some(TurnEnd::Returned(String::from_str("Must be delimeter '|' after 'Region' or 'District' sentence")));
        }
    }
    let g = match iter_lexem_table.next_fields() {
        Some(g) => g,
        None => { return Some(TurnEnd::Halt); },
    };
    proof {
        lemma_split_on_nonempty(lines[pos + 1], '-');
        lemma_nodes_view(tree.childs@);
        lemma_reached_from_ge(lines, pos + 2, part_expects(), 0);
    }
    let is_string = chars_eq(&g[0], "String");
    if is_string && g.len() < 2 {
        return Some(TurnEnd::Halt);
    }
    let parent = *last_node;
    if is_string && chars_eq(&g[1], "region") {
        match region_node(var_stack, iter_lexem_table, tree, rules_tree, parent, last_node) {
            Ok(i) => { *node_index = i; },
            Err(SentenceError::Rejected(t)) => {
                log.push(t);
                assert(strings(log@) =~= strings(old(log)@).push(t@));
            },
            Err(SentenceError::Halt) => {
                return Some(TurnEnd::Halt);
            },
        }
    } else if is_string && chars_eq(&g[1], "district") {
        match district_node(var_stack, iter_lexem_table, tree, *node_index, rules_tree, parent, last_node) {
            Ok(_) => {},
            Err(SentenceError::Rejected(t)) => {
                log.push(t);
                assert(strings(log@) =~= strings(old(log)@).push(t@));
            },
            Err(SentenceError::Halt) => {
                return Some(TurnEnd::Halt);
            },
        }
    } else {
        return Some(TurnEnd::Returned(String::from_str("Must key word 'region' or 'district'")));
    }
    None
}

/// Runs the parser over the text of a lexem table: the country sentence, then
/// region and district sentences separated by '|' lines, then prints the
/// parse tree and checks the areas. Gives what the run prints, in order, and
/// its result, as `parse_run` says of the lines of `text`.
pub fn syntax_parse_text(text: &[char]) -> (run: ParseRun)
    requires
        text@.len() <= usize::MAX / 8,
    ensures
        strings(run.log@) == parse_run(split_on(text@, '\n')).0,
        run_result_view(run.result) == parse_run(split_on(text@, '\n')).1,
{
    let ghost lines = split_on(text@, '\n');
    proof { lemma_split_on_nonempty(text@, '\n'); }
    let mut var_stack: Vec<String> = Vec::new();
    let mut iter_lexem_table = LexemTable::new(text);
    let mut rules_tree = RuleTree::new("S");
    let mut last_node: usize = 0;
    assert(strings(var_stack@) =~= Seq::<Seq<char>>::empty());
    assert(rules_wf(rules_tree@));
    let mut tree = match country_node(&mut var_stack, &mut iter_lexem_table, &mut rules_tree, 0, &mut last_node) {
        Ok(t) => t,
        Err(_) => {
            let empty: Vec<String> = Vec::new();
            assert(strings(empty@) =~= Seq::<Seq<char>>::empty());
            return ParseRun { log: empty, result: None };
        },
    };
    let mut node_index: i64 = 0;
    let mut log: Vec<String> = Vec::new();
    assert(strings(log@) =~= Seq::<Seq<char>>::empty());
    let ghost target = run_loop(lines, run_state(iter_lexem_table, var_stack, rules_tree, last_node, tree, node_index, log));
    assert(parse_run(lines) == finish_run(target.0, target.1));
    loop
        invariant_except_break
            run_loop(lines, run_state(iter_lexem_table, var_stack, rules_tree, last_node, tree, node_index, log)) == target,
            iter_lexem_table.pos <= iter_lexem_table.lines@.len(),
            last_node < rules_tree@.len(),
            rules_tree@.len() <= 3 * iter_lexem_table.pos + 1,
            tree@.childs.len() <= iter_lexem_table.pos,
        invariant
            iter_lexem_table.lines_view() == lines,
            lines == split_on(text@, '\n'),
            iter_lexem_table.lines@.len() <= usize::MAX / 8 + 1,
            parse_run(lines) == finish_run(target.0, target.1),
            rules_wf(rules_tree@),
            rules_tree@.len() >= 1,
        ensures
            target.1 == LoopEnd::Break,
            target.0.p.rules == rules_tree@,
            target.0.p.tree == tree@,
            target.0.log == strings(log@),
            rules_wf(rules_tree@),
            rules_tree@.len() >= 1,
        decreases iter_lexem_table.lines@.len() - iter_lexem_table.pos,
    {
        let ghost cur = run_state(iter_lexem_table, var_stack, rules_tree, last_node, tree, node_index, log);
        let end = sentence_turn(&mut var_stack, &mut iter_lexem_table, &mut tree, &mut rules_tree, &mut last_node, &mut node_index, &mut log);
        match end {
            None => {},
            Some(TurnEnd::Break) => { break; },
            Some(TurnEnd::Returned(m)) => {
                return ParseRun { log, result: Some(Err(m)) };
            },
            Some(TurnEnd::Halt) => {
                return ParseRun { log, result: None };
            },
        }
    }
    let ghost log0 = strings(log@);
    log.push(String::from_str("Parse tree output"));
    assert(strings(log@) =~= log0.push("Parse tree output"@));
    let _count = rules_tree.len();
    RuleNode::parse_tree(&rules_tree, 0, 0, &mut log);
    let is_valid = match check_tree(&tree, &mut log) {
        Some(v) => v,
        None => { return ParseRun { log, result: None }; },
    };
    if is_valid {
        let ghost log1 = strings(log@);
        log.push(String::from_str("Structure is valid"));
        assert(strings(log@) =~= log1.push("Structure is valid"@));
        ParseRun { log, result: Some(Ok(String::from_str("OKi doki"))) }
    } else {
        ParseRun { log, result: Some(Err(String::from_str("Structure is not valid"))) }
    }
}

} // verus!
