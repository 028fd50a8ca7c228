//! XGBoost models: reading the JSON model format and walking the trees.
//!
//! Numbers are the bits of doubles. Reading a number from text and computing
//! with numbers is the caller's.

use vstd::prelude::*;
use vstd::set_lib::*;
use crate::bits;
use crate::bits::is_less;
use crate::bytes::copy_bytes;
use crate::json;
use crate::json::{parse_json_bytes, quote_text, Json, JsonView};
use crate::model::types::{Algorithm, ModelError, ModelMetadata};
use crate::numbers;
use crate::numbers::{parse_i64, parse_usize};
use crate::text;
use crate::text::{contains_text, push_decimal, strip_brackets, text_eq};

verus! {

/// A tree, column by column: entry `i` of each column belongs to node `i`.
#[derive(Debug, PartialEq, Eq)]
pub struct XgbTree {
    pub left_children: Vec<i32>,
    pub right_children: Vec<i32>,
    pub split_indices: Vec<i32>,
    pub split_conditions: Vec<u64>,
    pub base_weights: Vec<u64>,
    /// Where a missing value goes; no prediction looks at it.
    pub default_left: Vec<u8>,
}

/// A tree as a mathematical value.
#[verifier::ext_equal]
pub struct TreeView {
    pub left: Seq<i32>,
    pub right: Seq<i32>,
    pub split: Seq<i32>,
    pub conditions: Seq<u64>,
    pub weights: Seq<u64>,
    pub default_left: Seq<u8>,
}

impl View for XgbTree {
    type V = TreeView;

    open spec fn view(&self) -> TreeView {
        TreeView {
            left: self.left_children@,
            right: self.right_children@,
            split: self.split_indices@,
            conditions: self.split_conditions@,
            weights: self.base_weights@,
            default_left: self.default_left@,
        }
    }
}

impl TreeView {
    /// The columns have one entry for each node.
    pub open spec fn consistent(self) -> bool {
        &&& self.right.len() == self.left.len()
        &&& self.split.len() == self.left.len()
        &&& self.conditions.len() == self.left.len()
        &&& self.weights.len() == self.left.len()
    }

    pub open spec fn is_node(self, node: int) -> bool {
        0 <= node < self.left.len()
    }

    /// The node has no children.
    pub open spec fn is_leaf(self, node: int) -> bool {
        self.left[node] == -1 && self.right[node] == -1
    }

    /// The features send a walk to the left of a node: the feature that it asks
    /// for is there and lies below its condition.
    pub open spec fn goes_left(self, features: Seq<u64>, node: int) -> bool {
        0 <= self.split[node] < features.len() && bits::less(features[self.split[node] as int], self.conditions[node])
    }

    /// Where a walk goes from a node.
    pub open spec fn next(self, features: Seq<u64>, node: int) -> int {
        if self.goes_left(features, node) {
            self.left[node] as int
        } else {
            self.right[node] as int
        }
    }

    /// The weight of the leaf that a walk from a node reaches in so many steps;
    /// nothing where it reaches none or leaves the tree.
    pub open spec fn walk(self, features: Seq<u64>, node: int, steps: nat) -> Option<u64>
        decreases steps,
    {
        if !self.is_node(node) {
            None
        } else if self.is_leaf(node) {
            Some(self.weights[node])
        } else if steps == 0 {
            None
        } else {
            self.walk(features, self.next(features, node), (steps - 1) as nat)
        }
    }

    /// The weight of the leaf that the features lead to.
    pub open spec fn leaf_value(self, features: Seq<u64>) -> Option<u64> {
        self.walk(features, 0, self.left.len())
    }

    /// The node that a walk comes to after so many steps.
    pub open spec fn path(self, features: Seq<u64>, node: int, steps: nat) -> int
        decreases steps,
    {
        if steps == 0 {
            node
        } else {
            self.next(features, self.path(features, node, (steps - 1) as nat))
        }
    }

    /// After `k` steps the walk comes to a leaf for the first time.
    pub open spec fn ends_at(self, features: Seq<u64>, node: int, k: nat) -> bool {
        &&& self.is_node(self.path(features, node, k))
        &&& self.is_leaf(self.path(features, node, k))
        &&& forall|j: nat|
            j < k ==> self.is_node(#[trigger] self.path(features, node, j)) && !self.is_leaf(
                self.path(features, node, j),
            )
    }

    proof fn lemma_path_shift(self, features: Seq<u64>, node: int, k: nat)
        ensures
            self.path(features, self.next(features, node), k) == self.path(features, node, k + 1),
        decreases k,
    {
        if k == 0 {
            reveal_with_fuel(TreeView::path, 2);
        } else {
            self.lemma_path_shift(features, node, (k - 1) as nat);
        }
    }

    proof fn lemma_path_join(self, features: Seq<u64>, node: int, a: nat, b: nat)
        ensures
            self.path(features, self.path(features, node, a), b) == self.path(features, node, a + b),
        decreases b,
    {
        if b > 0 {
            self.lemma_path_join(features, node, a, (b - 1) as nat);
        }
    }

    /// A walk that reaches a leaf comes to it after some number of steps.
    proof fn lemma_walk_ends(self, features: Seq<u64>, node: int, steps: nat) -> (k: nat)
        requires
            self.walk(features, node, steps) is Some,
        ensures
            k <= steps,
            self.ends_at(features, node, k),
            self.walk(features, node, steps) == Some(self.weights[self.path(features, node, k)]),
        decreases steps,
    {
        if self.is_leaf(node) {
            0
        } else {
            let next = self.next(features, node);
            let k = self.lemma_walk_ends(features, next, (steps - 1) as nat);
            self.lemma_path_shift(features, node, k);
            assert forall|j: nat| j < k + 1 implies self.is_node(#[trigger] self.path(features, node, j))
                && !self.is_leaf(self.path(features, node, j)) by {
                if j > 0 {
                    let i = (j - 1) as nat;
                    self.lemma_path_shift(features, node, i);
                    assert(self.is_node(self.path(features, next, i)));
                }
            }
            k + 1
        }
    }

    /// A walk that comes to a leaf after `k` steps reaches it with any allowance
    /// of at least `k` steps.
    proof fn lemma_end_is_walked(self, features: Seq<u64>, node: int, k: nat, steps: nat)
        requires
            self.ends_at(features, node, k),
            k <= steps,
        ensures
            self.walk(features, node, steps) == Some(self.weights[self.path(features, node, k)]),
        decreases k,
    {
        if k > 0 {
            let next = self.next(features, node);
            assert(self.path(features, node, 0) == node);
            self.lemma_path_shift(features, node, (k - 1) as nat);
            assert forall|j: nat| j < k - 1 implies self.is_node(#[trigger] self.path(features, next, j))
                && !self.is_leaf(self.path(features, next, j)) by {
                self.lemma_path_shift(features, node, j);
                assert(self.is_node(self.path(features, node, j + 1)));
            }
            self.lemma_end_is_walked(features, next, (k - 1) as nat, (steps - 1) as nat);
        }
    }

    /// A first leaf comes before every node could have been visited twice.
    proof fn lemma_end_is_near(self, features: Seq<u64>, node: int, k: nat)
        requires
            self.ends_at(features, node, k),
        ensures
            k < self.left.len(),
    {
        let n = self.left.len();
        if k >= n {
            let visited = Seq::new(k + 1, |j: int| self.path(features, node, j as nat));
            assert forall|j: int| 0 <= j < visited.len() implies 0 <= #[trigger] visited[j] < n by {
                if j < k {
                    assert(self.is_node(self.path(features, node, j as nat)));
                }
            }
            if visited.no_duplicates() {
                visited.unique_seq_to_set();
                lemma_int_range(0, n as int);
                assert(visited.to_set().subset_of(set_int_range(0, n as int))) by {
                    assert forall|v: int| visited.to_set().contains(v) implies set_int_range(0, n as int).contains(v) by {
                        let j = choose|j: int| 0 <= j < visited.len() && visited[j] == v;
                        assert(0 <= visited[j] < n);
                    }
                }
                lemma_len_subset(visited.to_set(), set_int_range(0, n as int));
                assert(false);
            }
            let (a, b) = choose|a: int, b: int|
                0 <= a < visited.len() && 0 <= b < visited.len() && a != b && visited[a] == visited[b];
            let i = if a < b {
                a as nat
            } else {
                b as nat
            };
            let j = if a < b {
                b as nat
            } else {
                a as nat
            };
            let rest = (k - j) as nat;
            self.lemma_path_join(features, node, i, rest);
            self.lemma_path_join(features, node, j, rest);
            assert(visited[i as int] == visited[j as int]);
            assert(self.path(features, node, i + rest) == self.path(features, node, k));
            assert(!self.is_leaf(self.path(features, node, i + rest)));
            assert(false);
        }
    }

    /// As many steps as there are nodes are enough: a walk that reaches a leaf at
    /// all reaches the same one within them.
    pub proof fn law_node_count_is_enough(self, features: Seq<u64>, steps: nat)
        requires
            self.walk(features, 0, steps) is Some,
        ensures
            self.leaf_value(features) == self.walk(features, 0, steps),
    {
        let k = self.lemma_walk_ends(features, 0, steps);
        self.lemma_end_is_near(features, 0, k);
        self.lemma_end_is_walked(features, 0, k, self.left.len());
    }
}

impl XgbTree {
    /// The weight of the leaf that the features lead to; `None` where the
    /// children lead out of the tree or round in a circle.
    pub fn find_leaf(&self, features: &[u64]) -> (r: Option<u64>)
        requires
            self@.consistent(),
        ensures
            r == self@.leaf_value(features@),
    {
        let n: usize = self.left_children.len();
        let mut node: i32 = 0;
        let mut left: usize = n;
        loop
            invariant
                self@.consistent(),
                n == self@.left.len(),
                left <= n,
                self@.leaf_value(features@) == self@.walk(features@, node as int, left as nat),
            decreases left,
        {
            if node < 0 || (node as usize) >= n {
                return None;
            }
            let i: usize = node as usize;
            if self.left_children[i] == -1 && self.right_children[i] == -1 {
                return Some(self.base_weights[i]);
            }
            if left == 0 {
                return None;
            }
            let f: i32 = self.split_indices[i];
            node = if f >= 0 && (f as usize) < features.len() && is_less(
                features[f as usize],
                self.split_conditions[i],
            ) {
                self.left_children[i]
            } else {
                self.right_children[i]
            };
            left = left - 1;
        }
    }

    /// The weight of the leaf that the features lead to.
    pub fn predict(&self, features: &[u64]) -> (r: u64)
        requires
            self@.consistent(),
            self@.leaf_value(features@) is Some,
        ensures
            self@.leaf_value(features@) == Some(r),
    {
        match self.find_leaf(features) {
            Some(w) => w,
            None => 0,
        }
    }
}

/// `answer` is what the caller reads from a text as a number.
pub open spec fn reads_real<F: Fn(&str) -> Option<u64>>(read: F, text: Seq<char>, answer: Option<u64>) -> bool {
    exists|s: &str| s@ == text && #[trigger] call_ensures(read, (s,), answer)
}

/// The bits are the number of a text as the caller reads it, and zero where it
/// is none.
pub open spec fn text_read<F: Fn(&str) -> Option<u64>>(read: F, text: Seq<char>, value: u64) -> bool {
    exists|answer: Option<u64>| #[trigger]
        reads_real(read, text, answer) && value == (match answer {
            Some(x) => x,
            None => bits::ZERO,
        })
}

/// The bits are the number of a value: that of a number, that of a text without
/// brackets as the caller reads it, and zero where there is none.
pub open spec fn value_read<F: Fn(&str) -> Option<u64>>(read: F, v: JsonView, value: u64) -> bool {
    match v {
        JsonView::Number(n) => value == (match n.real {
            Some(x) => x,
            None => bits::ZERO,
        }),
        JsonView::Text(s) => text_read(read, text::without_brackets(s), value),
        _ => value == bits::ZERO,
    }
}

/// Reads the number of a value.
fn parse_val<F: Fn(&str) -> Option<u64>>(v: &Json, read: &F) -> (value: u64)
    requires
        forall|s: &str| call_requires(*read, (s,)),
    ensures
        value_read(*read, v@, value),
{
    match v {
        Json::Number(n) => {
            let value: u64 = match n.real {
                Some(x) => x,
                None => bits::ZERO,
            };
            assert(v@ == JsonView::Number(n@));
            assert(value_read(*read, v@, value));
            value
        },
        Json::Text(s) => {
            let plain: String = strip_brackets(s.as_str());
            let asked: &str = plain.as_str();
            let answer: Option<u64> = read(asked);
            let value: u64 = match answer {
                Some(x) => x,
                None => bits::ZERO,
            };
            proof {
                assert(call_ensures(*read, (asked,), answer));
                assert(v@ == JsonView::Text(s@));
                assert(reads_real(*read, text::without_brackets(s@), answer));
                assert(text_read(*read, text::without_brackets(s@), value));
            }
            value
        },
        _ => {
            assert(!(v@ is Number) && !(v@ is Text));
            assert(value_read(*read, v@, bits::ZERO));
            bits::ZERO
        },
    }
}

/// The integer of an element: that of a number or of a text, cut to 32 bits.
pub open spec fn int_element(v: JsonView) -> Result<i32, Seq<char>> {
    match v {
        JsonView::Number(n) => match n.signed {
            Some(x) => Ok(x as i32),
            None => Err("not int"@),
        },
        JsonView::Text(s) => match numbers::whole_number(s, i64::MIN as int, i64::MAX as int) {
            Ok(x) => Ok((x as i64) as i32),
            Err(e) => Err(e),
        },
        _ => Err("not number/string"@),
    }
}

/// The integers of the first `n` elements, or what is wrong with the first one
/// that is none.
pub open spec fn int_elements(a: Seq<JsonView>, n: nat) -> Result<Seq<i32>, Seq<char>>
    decreases n,
{
    if n == 0 {
        Ok(Seq::empty())
    } else {
        match int_elements(a, (n - 1) as nat) {
            Err(e) => Err(e),
            Ok(before) => match int_element(a[n - 1]) {
                Err(e) => Err(e),
                Ok(x) => Ok(before.push(x)),
            },
        }
    }
}

/// The array that a tree has under a key.
pub open spec fn array_at(tree: JsonView, key: Seq<char>) -> Result<Seq<JsonView>, Seq<char>> {
    match json::member_of(tree, key) {
        Some(JsonView::Array(a)) => Ok(a),
        _ => Err("missing key '"@ + key + "' or not an array"@),
    }
}

/// The integers that a tree has under a key.
pub open spec fn ints_at(tree: JsonView, key: Seq<char>) -> Result<Seq<i32>, Seq<char>> {
    match array_at(tree, key) {
        Ok(a) => int_elements(a, a.len()),
        Err(e) => Err(e),
    }
}

fn array_of<'a>(tree: &'a Json, key: &str) -> (r: Result<&'a Vec<Json>, String>)
    ensures
        match r {
            Ok(a) => array_at(tree@, key@) == Ok::<Seq<JsonView>, Seq<char>>(json::views(a@)),
            Err(e) => array_at(tree@, key@) == Err::<Seq<JsonView>, Seq<char>>(e@),
        },
{
    if let Some(v) = tree.get(key) {
        if let Some(a) = v.as_array() {
            return Ok(a);
        }
    }
    let mut e: String = "missing key '".to_owned();
    e.append(key);
    e.append("' or not an array");
    Err(e)
}

proof fn lemma_stays_no_int(a: Seq<JsonView>, m: nat, n: nat)
    requires
        m <= n,
        int_elements(a, m) is Err,
    ensures
        int_elements(a, n) == int_elements(a, m),
    decreases n,
{
    if m < n {
        lemma_stays_no_int(a, m, (n - 1) as nat);
    }
}

fn parse_i32_array(tree: &Json, key: &str) -> (r: Result<Vec<i32>, String>)
    ensures
        match r {
            Ok(v) => ints_at(tree@, key@) == Ok::<Seq<i32>, Seq<char>>(v@),
            Err(e) => ints_at(tree@, key@) == Err::<Seq<i32>, Seq<char>>(e@),
        },
{
    let a: &Vec<Json> = match array_of(tree, key) {
        Ok(a) => a,
        Err(e) => {
            return Err(e);
        },
    };
    let ghost all = json::views(a@);
    let mut r: Vec<i32> = Vec::new();
    let mut i: usize = 0;
    assert(r@ =~= Seq::empty());
    while i < a.len()
        invariant
            array_at(tree@, key@) == Ok::<Seq<JsonView>, Seq<char>>(all),
            all == json::views(a@),
            i <= a@.len(),
            int_elements(all, i as nat) == Ok::<Seq<i32>, Seq<char>>(r@),
        decreases a.len() - i,
    {
        assert(all[i as int] == a@[i as int]@);
        let element: Result<i64, String> = match &a[i] {
            Json::Number(n) => match n.signed {
                Some(x) => Ok(x),
                None => Err("not int".to_owned()),
            },
            Json::Text(s) => parse_i64(s.as_str()),
            _ => Err("not number/string".to_owned()),
        };
        match element {
            Ok(x) => {
                r.push(x as i32);
            },
            Err(e) => {
                proof {
                    assert(int_element(all[i as int]) == Err::<i32, Seq<char>>(e@));
                    lemma_stays_no_int(all, (i + 1) as nat, all.len());
                }
                return Err(e);
            },
        }
        i = i + 1;
    }
    Ok(r)
}

/// The numbers are those of the elements.
pub open spec fn values_read<F: Fn(&str) -> Option<u64>>(read: F, a: Seq<JsonView>, values: Seq<u64>) -> bool {
    &&& values.len() == a.len()
    &&& forall|i: int| 0 <= i < a.len() ==> value_read(read, a[i], #[trigger] values[i])
}

fn parse_real_array<F: Fn(&str) -> Option<u64>>(tree: &Json, key: &str, read: &F) -> (r: Result<Vec<u64>, String>)
    requires
        forall|s: &str| call_requires(*read, (s,)),
    ensures
        match r {
            Ok(v) => array_at(tree@, key@) is Ok && values_read(*read, array_at(tree@, key@)->Ok_0, v@),
            Err(e) => array_at(tree@, key@) == Err::<Seq<JsonView>, Seq<char>>(e@),
        },
{
    let a: &Vec<Json> = match array_of(tree, key) {
        Ok(a) => a,
        Err(e) => {
            return Err(e);
        },
    };
    let ghost all = json::views(a@);
    let mut r: Vec<u64> = Vec::new();
    let mut i: usize = 0;
    while i < a.len()
        invariant
            forall|s: &str| call_requires(*read, (s,)),
            all == json::views(a@),
            i <= a@.len(),
            r@.len() == i,
            forall|x: int| 0 <= x < i ==> value_read(*read, all[x], #[trigger] r@[x]),
        decreases a.len() - i,
    {
        assert(all[i as int] == a@[i as int]@);
        r.push(parse_val(&a[i], read));
        i = i + 1;
    }
    Ok(r)
}

/// Where a missing value goes: the low bits of the integers of the array, and
/// zeros where there is no array.
pub open spec fn default_left_of(tree: JsonView, nodes: nat) -> Seq<u8> {
    match json::member_of(tree, "default_left"@) {
        Some(JsonView::Array(a)) => Seq::new(a.len(), |i: int| default_element(a[i])),
        _ => Seq::new(nodes, |i: int| 0u8),
    }
}

pub open spec fn default_element(v: JsonView) -> u8 {
    match v {
        JsonView::Number(n) => match n.signed {
            Some(x) => x as u8,
            None => 0,
        },
        _ => 0,
    }
}

fn parse_default_left(tree: &Json, nodes: usize) -> (r: Vec<u8>)
    ensures
        r@ == default_left_of(tree@, nodes as nat),
{
    let mut r: Vec<u8> = Vec::new();
    let mut i: usize = 0;
    if let Some(v) = tree.get("default_left") {
        if let Some(a) = v.as_array() {
            let ghost all = json::views(a@);
            while i < a.len()
                invariant
                    all == json::views(a@),
                    i <= a@.len(),
                    r@.len() == i,
                    forall|x: int| 0 <= x < i ==> #[trigger] r@[x] == default_element(all[x]),
                decreases a.len() - i,
            {
                assert(all[i as int] == a@[i as int]@);
                let element: u8 = match &a[i] {
                    Json::Number(n) => match n.signed {
                        Some(x) => x as u8,
                        None => 0,
                    },
                    _ => 0,
                };
                r.push(element);
                i = i + 1;
            }
            assert(r@ =~= default_left_of(tree@, nodes as nat));
            return r;
        }
    }
    while i < nodes
        invariant
            i <= nodes,
            r@.len() == i,
            forall|x: int| 0 <= x < i ==> #[trigger] r@[x] == 0u8,
        decreases nodes - i,
    {
        r.push(0);
        i = i + 1;
    }
    assert(r@ =~= default_left_of(tree@, nodes as nat));
    r
}

/// What is wrong with the JSON of a tree, if anything.
pub open spec fn tree_problem(tree: JsonView) -> Option<Seq<char>> {
    let left = ints_at(tree, "left_children"@);
    let right = ints_at(tree, "right_children"@);
    let split = ints_at(tree, "split_indices"@);
    let conditions = array_at(tree, "split_conditions"@);
    let weights = array_at(tree, "base_weights"@);
    if let Err(e) = left {
        Some(e)
    } else if let Err(e) = right {
        Some(e)
    } else if let Err(e) = split {
        Some(e)
    } else if let Err(e) = conditions {
        Some(e)
    } else if let Err(e) = weights {
        Some(e)
    } else {
        let nodes = left->Ok_0.len();
        if right->Ok_0.len() != nodes || split->Ok_0.len() != nodes || conditions->Ok_0.len() != nodes
            || weights->Ok_0.len() != nodes {
            Some("Tree arrays have inconsistent lengths"@)
        } else {
            None
        }
    }
}

/// The tree is the one in the JSON.
pub open spec fn tree_read<F: Fn(&str) -> Option<u64>>(read: F, doc: JsonView, tree: TreeView) -> bool {
    &&& tree_problem(doc) is None
    &&& tree.left == ints_at(doc, "left_children"@)->Ok_0
    &&& tree.right == ints_at(doc, "right_children"@)->Ok_0
    &&& tree.split == ints_at(doc, "split_indices"@)->Ok_0
    &&& values_read(read, array_at(doc, "split_conditions"@)->Ok_0, tree.conditions)
    &&& values_read(read, array_at(doc, "base_weights"@)->Ok_0, tree.weights)
    &&& tree.default_left == default_left_of(doc, tree.left.len())
}

fn parse_tree<F: Fn(&str) -> Option<u64>>(doc: &Json, read: &F) -> (r: Result<XgbTree, String>)
    requires
        forall|s: &str| call_requires(*read, (s,)),
    ensures
        match r {
            Ok(tree) => tree_read(*read, doc@, tree@) && tree@.consistent(),
            Err(e) => tree_problem(doc@) == Some(e@),
        },
{
    let left_children: Vec<i32> = match parse_i32_array(doc, "left_children") {
        Ok(v) => v,
        Err(e) => {
            return Err(e);
        },
    };
    let right_children: Vec<i32> = match parse_i32_array(doc, "right_children") {
        Ok(v) => v,
        Err(e) => {
            return Err(e);
        },
    };
    let split_indices: Vec<i32> = match parse_i32_array(doc, "split_indices") {
        Ok(v) => v,
        Err(e) => {
            return Err(e);
        },
    };
    let split_conditions: Vec<u64> = match parse_real_array(doc, "split_conditions", read) {
        Ok(v) => v,
        Err(e) => {
            return Err(e);
        },
    };
    let base_weights: Vec<u64> = match parse_real_array(doc, "base_weights", read) {
        Ok(v) => v,
        Err(e) => {
            return Err(e);
        },
    };
    let default_left: Vec<u8> = parse_default_left(doc, left_children.len());
    let nodes: usize = left_children.len();
    if right_children.len() != nodes || split_indices.len() != nodes || split_conditions.len() != nodes
        || base_weights.len() != nodes {
        return Err("Tree arrays have inconsistent lengths".to_owned());
    }
    Ok(XgbTree { left_children, right_children, split_indices, split_conditions, base_weights, default_left })
}

/// What is wrong with the first of `n` trees with which anything is.
pub open spec fn trees_problem(a: Seq<JsonView>, n: nat) -> Option<Seq<char>>
    decreases n,
{
    if n == 0 {
        None
    } else {
        match trees_problem(a, (n - 1) as nat) {
            Some(e) => Some(e),
            None => tree_problem(a[n - 1]),
        }
    }
}

proof fn lemma_problem_stays(a: Seq<JsonView>, m: nat, n: nat)
    requires
        m <= n,
        trees_problem(a, m) is Some,
    ensures
        trees_problem(a, n) == trees_problem(a, m),
    decreases n,
{
    if m < n {
        lemma_problem_stays(a, m, (n - 1) as nat);
    }
}

/// What the JSON of a model says: the parts that the model is read from.
pub struct ModelParts {
    pub base_score: JsonView,
    pub num_features: nat,
    pub objective: Seq<char>,
    pub trees: Seq<JsonView>,
}

/// The number of features, given as text; zero where there is none.
pub open spec fn features_in(param: JsonView) -> nat {
    match json::member_of(param, "num_feature"@) {
        Some(JsonView::Text(s)) => match numbers::whole_number(s, 0, usize::MAX as int) {
            Ok(n) => n as nat,
            Err(_) => 0,
        },
        _ => 0,
    }
}

/// The name of the objective; squared error where none is named.
pub open spec fn objective_in(learner: JsonView) -> Seq<char> {
    match json::member_of(learner, "objective"@) {
        Some(o) => match json::member_of(o, "name"@) {
            Some(JsonView::Text(s)) => s,
            _ => "reg:squarederror"@,
        },
        None => "reg:squarederror"@,
    }
}

/// The parts of a model in its JSON, or what is wrong with the JSON.
pub open spec fn model_parts(doc: Result<JsonView, Seq<char>>) -> Result<ModelParts, Seq<char>> {
    match doc {
        Err(e) => Err("JSON parse error: "@ + e),
        Ok(root) => match json::member_of(root, "learner"@) {
            None => Err("missing 'learner' key in XGBoost model"@),
            Some(learner) => match json::member_of(learner, "learner_model_param"@) {
                None => Err("missing learner_model_param"@),
                Some(param) => match json::member_of(param, "base_score"@) {
                    None => Err("missing base_score"@),
                    Some(base_score) => match json::member_of(learner, "gradient_booster"@) {
                        None => Err("missing gradient_booster"@),
                        Some(booster) => match json::member_of(booster, "model"@) {
                            None => Err("missing model block"@),
                            Some(block) => match json::member_of(block, "trees"@) {
                                None => Err("missing trees"@),
                                Some(JsonView::Array(trees)) => match trees_problem(trees, trees.len()) {
                                    Some(e) => Err(e),
                                    None => Ok(
                                        ModelParts {
                                            base_score,
                                            num_features: features_in(param),
                                            objective: objective_in(learner),
                                            trees,
                                        },
                                    ),
                                },
                                Some(_) => Err("trees is not an array"@),
                            },
                        },
                    },
                },
            },
        },
    }
}

/// A model: its trees, and how their leaves make up a prediction.
#[derive(Debug, PartialEq, Eq)]
pub struct XgbModel {
    pub base_score: u64,
    pub num_features: usize,
    pub trees: Vec<XgbTree>,
    pub objective: String,
}

impl XgbModel {
    /// Every tree has consistent columns.
    pub open spec fn well_formed(self) -> bool {
        forall|i: int| 0 <= i < self.trees@.len() ==> (#[trigger] self.trees@[i])@.consistent()
    }

    /// The model is the one in the parts.
    pub open spec fn is_read<F: Fn(&str) -> Option<u64>>(self, read: F, parts: ModelParts) -> bool {
        &&& value_read(read, parts.base_score, self.base_score)
        &&& self.num_features == parts.num_features
        &&& self.objective@ == parts.objective
        &&& self.trees@.len() == parts.trees.len()
        &&& forall|i: int|
            0 <= i < self.trees@.len() ==> tree_read(read, parts.trees[i], (#[trigger] self.trees@[i])@)
    }

    /// Reads a model from the bytes of its JSON. `read` reads a number from a
    /// text.
    pub fn from_json<F: Fn(&str) -> Option<u64>>(json_bytes: &[u8], read: &F) -> (r: Result<Self, String>)
        requires
            forall|s: &str| call_requires(*read, (s,)),
        ensures
            match model_parts(json::json_bytes_document(json_bytes@)) {
                Ok(parts) => r matches Ok(model) && model.well_formed() && model.is_read(*read, parts),
                Err(message) => r matches Err(e) && e@ == message,
            },
    {
        let root: Json = match parse_json_bytes(json_bytes) {
            Ok(root) => root,
            Err(message) => {
                let mut e: String = "JSON parse error: ".to_owned();
                e.append(message.as_str());
                return Err(e);
            },
        };
        let learner: &Json = match root.get("learner") {
            Some(v) => v,
            None => {
                return Err("missing 'learner' key in XGBoost model".to_owned());
            },
        };
        let param: &Json = match learner.get("learner_model_param") {
            Some(v) => v,
            None => {
                return Err("missing learner_model_param".to_owned());
            },
        };
        let base_score: u64 = match param.get("base_score") {
            Some(v) => parse_val(v, read),
            None => {
                return Err("missing base_score".to_owned());
            },
        };
        let num_features: usize = read_num_features(param);
        let objective: String = read_objective(learner);
        let booster: &Json = match learner.get("gradient_booster") {
            Some(v) => v,
            None => {
                return Err("missing gradient_booster".to_owned());
            },
        };
        let block: &Json = match booster.get("model") {
            Some(v) => v,
            None => {
                return Err("missing model block".to_owned());
            },
        };
        let listed: &Json = match block.get("trees") {
            Some(v) => v,
            None => {
                return Err("missing trees".to_owned());
            },
        };
        let tree_list: &Vec<Json> = match listed.as_array() {
            Some(a) => a,
            None => {
                return Err("trees is not an array".to_owned());
            },
        };
        let ghost all = json::views(tree_list@);
        let ghost parts = ModelParts {
            base_score: json::member_of(param@, "base_score"@)->0,
            num_features: num_features as nat,
            objective: objective@,
            trees: all,
        };
        let mut trees: Vec<XgbTree> = Vec::new();
        let mut i: usize = 0;
        while i < tree_list.len()
            invariant
                forall|s: &str| call_requires(*read, (s,)),
                model_parts(json::json_bytes_document(json_bytes@)) == (match trees_problem(all, all.len()) {
                    Some(e) => Err::<ModelParts, Seq<char>>(e),
                    None => Ok(parts),
                }),
                all == json::views(tree_list@),
                i <= tree_list@.len(),
                trees@.len() == i,
                trees_problem(all, i as nat) is None,
                forall|x: int| 0 <= x < i ==> (#[trigger] trees@[x])@.consistent(),
                forall|x: int| 0 <= x < i ==> tree_read(*read, all[x], (#[trigger] trees@[x])@),
            decreases tree_list.len() - i,
        {
            assert(all[i as int] == tree_list@[i as int]@);
            match parse_tree(&tree_list[i], read) {
                Ok(tree) => {
                    trees.push(tree);
                },
                Err(e) => {
                    proof {
                        assert(trees_problem(all, (i + 1) as nat) == Some(e@));
                        lemma_problem_stays(all, (i + 1) as nat, all.len());
                    }
                    return Err(e);
                },
            }
            i = i + 1;
        }
        Ok(XgbModel { base_score, num_features, trees, objective })
    }
}

fn read_num_features(param: &Json) -> (n: usize)
    ensures
        n == features_in(param@),
{
    if let Some(v) = param.get("num_feature") {
        if let Some(s) = v.as_text() {
            if let Ok(n) = parse_usize(s.as_str()) {
                return n;
            }
        }
    }
    0
}

fn read_objective(learner: &Json) -> (r: String)
    ensures
        r@ == objective_in(learner@),
{
    if let Some(o) = learner.get("objective") {
        if let Some(name) = o.get("name") {
            if let Some(s) = name.as_text() {
                return s.clone();
            }
        }
    }
    "reg:squarederror".to_owned()
}

impl XgbModel {
    /// In every tree the features lead to a leaf.
    pub open spec fn leads(self, features: Seq<u64>) -> bool {
        forall|i: int| 0 <= i < self.trees@.len() ==> (#[trigger] self.trees@[i])@.leaf_value(features) is Some
    }

    /// The leaf weights that the features lead to, tree by tree.
    pub open spec fn leaves(self, features: Seq<u64>) -> Seq<u64> {
        Seq::new(self.trees@.len(), |i: int| self.trees@[i]@.leaf_value(features)->0)
    }

    /// The leaf weights that the features lead to, tree by tree; `None` where
    /// they lead to no leaf in some tree.
    pub fn find_leaves(&self, features: &[u64]) -> (r: Option<Vec<u64>>)
        requires
            self.well_formed(),
        ensures
            match r {
                Some(v) => self.leads(features@) && v@ == self.leaves(features@),
                None => !self.leads(features@),
            },
    {
        let mut r: Vec<u64> = Vec::new();
        let mut i: usize = 0;
        while i < self.trees.len()
            invariant
                self.well_formed(),
                i <= self.trees@.len(),
                r@.len() == i,
                forall|x: int|
                    0 <= x < i ==> (#[trigger] self.trees@[x])@.leaf_value(features@) == Some(r@[x]),
            decreases self.trees.len() - i,
        {
            match self.trees[i].find_leaf(features) {
                Some(w) => {
                    r.push(w);
                },
                None => {
                    assert(!(self.trees@[i as int]@.leaf_value(features@) is Some));
                    return None;
                },
            }
            i = i + 1;
        }
        assert(r@ =~= self.leaves(features@));
        Some(r)
    }

    /// The raw score is what the caller adds up from the base score and the
    /// leaves.
    pub open spec fn raw_score<S: Fn(u64, &Vec<u64>) -> u64>(self, sum: S, features: Seq<u64>, score: u64) -> bool {
        exists|v: &Vec<u64>| v@ == self.leaves(features) && #[trigger] call_ensures(sum, (self.base_score, v), score)
    }

    /// The message for a feature vector of the wrong length.
    pub open spec fn mismatch(self, got: nat) -> Seq<char> {
        "feature count mismatch: expected "@ + text::decimal(self.num_features as nat) + ", got "@ + text::decimal(got)
    }

    /// Predicts the raw score, before the objective transforms it.
    pub fn predict_raw<S: Fn(u64, &Vec<u64>) -> u64>(&self, features: &Vec<u64>, sum: &S) -> (r: Result<u64, String>)
        requires
            self.well_formed(),
            features@.len() == self.num_features ==> self.leads(features@),
            forall|base: u64, v: &Vec<u64>| call_requires(*sum, (base, v)),
        ensures
            if features@.len() != self.num_features {
                r matches Err(e) && e@ == self.mismatch(features@.len())
            } else {
                r matches Ok(score) && self.raw_score(*sum, features@, score)
            },
    {
        if features.len() != self.num_features {
            let mut e: String = "feature count mismatch: expected ".to_owned();
            push_decimal(&mut e, self.num_features as u64);
            e.append(", got ");
            push_decimal(&mut e, features.len() as u64);
            return Err(e);
        }
        let found: Vec<u64> = match self.find_leaves(features.as_slice()) {
            Some(v) => v,
            None => Vec::new(),
        };
        let v: &Vec<u64> = &found;
        let score: u64 = sum(self.base_score, v);
        assert(call_ensures(*sum, (self.base_score, v), score));
        Ok(score)
    }

    /// The objective leaves the raw score as it is.
    pub open spec fn is_plain(objective: Seq<char>) -> bool {
        ||| objective == "reg:squarederror"@
        ||| objective == "reg:squaredlogerror"@
        ||| objective == "reg:absoluteerror"@
        ||| objective == "reg:pseudohubererror"@
    }

    /// The objective puts the raw score through the logistic function.
    pub open spec fn is_logistic(objective: Seq<char>) -> bool {
        objective == "binary:logistic"@ || objective == "reg:logistic"@
    }

    /// Predicts. `sum` adds up the base score and the leaves, `logistic` is the
    /// logistic function.
    pub fn predict<S: Fn(u64, &Vec<u64>) -> u64, L: Fn(u64) -> u64>(
        &self,
        features: &Vec<u64>,
        sum: &S,
        logistic: &L,
    ) -> (r: Result<u64, String>)
        requires
            self.well_formed(),
            features@.len() == self.num_features ==> self.leads(features@),
            forall|base: u64, v: &Vec<u64>| call_requires(*sum, (base, v)),
            forall|score: u64| call_requires(*logistic, (score,)),
        ensures
            if features@.len() != self.num_features {
                r matches Err(e) && e@ == self.mismatch(features@.len())
            } else if Self::is_plain(self.objective@) {
                r matches Ok(score) && self.raw_score(*sum, features@, score)
            } else if Self::is_logistic(self.objective@) {
                r matches Ok(p) && exists|score: u64|
                    #![trigger self.raw_score(*sum, features@, score)]
                    self.raw_score(*sum, features@, score) && call_ensures(*logistic, (score,), p)
            } else {
                r matches Err(e) && e@ == "unsupported objective: "@ + self.objective@
            },
    {
        let score: u64 = match self.predict_raw(features, sum) {
            Ok(score) => score,
            Err(e) => {
                return Err(e);
            },
        };
        let objective: &str = self.objective.as_str();
        if text_eq(objective, "reg:squarederror") || text_eq(objective, "reg:squaredlogerror") || text_eq(
            objective,
            "reg:absoluteerror",
        ) || text_eq(objective, "reg:pseudohubererror") {
            Ok(score)
        } else if text_eq(objective, "binary:logistic") || text_eq(objective, "reg:logistic") {
            Ok(logistic(score))
        } else {
            let mut e: String = "unsupported objective: ".to_owned();
            e.append(objective);
            Err(e)
        }
    }

    pub fn num_features(&self) -> (n: usize)
        ensures
            n == self.num_features,
    {
        self.num_features
    }

    pub fn n_trees(&self) -> (n: usize)
        ensures
            n == self.trees@.len(),
    {
        self.trees.len()
    }

    pub fn objective(&self) -> (r: &String)
        ensures
            *r == self.objective,
    {
        &self.objective
    }

    /// The bytes that keep the model: its JSON as it is.
    pub fn to_bytes(&self, json_data: &[u8]) -> (r: Vec<u8>)
        ensures
            r@ == json_data@,
    {
        copy_bytes(json_data)
    }
}

/// A model with the bytes of its JSON and its metadata.
#[derive(Debug, PartialEq, Eq)]
pub struct XgbModelWrapper {
    pub model: XgbModel,
    pub json_bytes: Vec<u8>,
    pub metadata: ModelMetadata,
}

/// The metadata of a model.
pub open spec fn is_metadata_of(meta: ModelMetadata, model: XgbModel) -> bool {
    &&& meta.algorithm == (if text::occurs("logistic"@, model.objective@) {
        Algorithm::XGBoostClassifier
    } else {
        Algorithm::XGBoostRegressor
    })
    &&& meta.num_features == model.num_features
    &&& meta.num_samples == 0
    &&& meta.r_squared is None
    &&& meta.mse is None
    &&& meta.coefficients_count == model.trees@.len()
    &&& meta.hyperparameters_json@ == "{\"n_trees\":"@ + text::decimal(model.trees@.len()) + ",\"objective\":"@
        + json::json_quoted(model.objective@) + "}"@
}

impl XgbModelWrapper {
    /// The model is the one in the bytes, and the metadata is its own.
    pub open spec fn is_of<F: Fn(&str) -> Option<u64>>(self, read: F, data: Seq<u8>) -> bool {
        &&& self.json_bytes@ == data
        &&& self.model.well_formed()
        &&& model_parts(json::json_bytes_document(data)) matches Ok(parts) && self.model.is_read(read, parts)
        &&& is_metadata_of(self.metadata, self.model)
    }

    /// Reads a model from the bytes of its JSON and keeps the bytes.
    pub fn new<F: Fn(&str) -> Option<u64>>(json_bytes: Vec<u8>, read: &F) -> (r: Result<Self, ModelError>)
        requires
            forall|s: &str| call_requires(*read, (s,)),
        ensures
            match model_parts(json::json_bytes_document(json_bytes@)) {
                Ok(_) => r matches Ok(w) && w.is_of(*read, json_bytes@),
                Err(message) => r matches Err(ModelError::Serialization(e)) && e@ == message,
            },
    {
        let model: XgbModel = match XgbModel::from_json(json_bytes.as_slice(), read) {
            Ok(model) => model,
            Err(e) => {
                return Err(ModelError::Serialization(e));
            },
        };
        let algorithm: Algorithm = if contains_text(model.objective.as_str(), "logistic") {
            Algorithm::XGBoostClassifier
        } else {
            Algorithm::XGBoostRegressor
        };
        let mut hyperparameters_json: String = "{\"n_trees\":".to_owned();
        push_decimal(&mut hyperparameters_json, model.n_trees() as u64);
        hyperparameters_json.append(",\"objective\":");
        let quoted: String = quote_text(model.objective.as_str());
        hyperparameters_json.append(quoted.as_str());
        hyperparameters_json.append("}");
        let metadata = ModelMetadata {
            algorithm,
            num_features: model.num_features(),
            num_samples: 0,
            r_squared: None,
            mse: None,
            coefficients_count: model.n_trees(),
            hyperparameters_json,
        };
        Ok(XgbModelWrapper { model, json_bytes, metadata })
    }

    /// Predicts, with the error of the model as a training error.
    pub fn predict<S: Fn(u64, &Vec<u64>) -> u64, L: Fn(u64) -> u64>(
        &self,
        features: &Vec<u64>,
        sum: &S,
        logistic: &L,
    ) -> (r: Result<u64, ModelError>)
        requires
            self.model.well_formed(),
            features@.len() == self.model.num_features ==> self.model.leads(features@),
            forall|base: u64, v: &Vec<u64>| call_requires(*sum, (base, v)),
            forall|score: u64| call_requires(*logistic, (score,)),
        ensures
            if features@.len() != self.model.num_features {
                r matches Err(ModelError::Training(e)) && e@ == self.model.mismatch(features@.len())
            } else if XgbModel::is_plain(self.model.objective@) {
                r matches Ok(score) && self.model.raw_score(*sum, features@, score)
            } else if XgbModel::is_logistic(self.model.objective@) {
                r matches Ok(p) && exists|score: u64|
                    #![trigger self.model.raw_score(*sum, features@, score)]
                    self.model.raw_score(*sum, features@, score) && call_ensures(*logistic, (score,), p)
            } else {
                r matches Err(ModelError::Training(e)) && e@ == "unsupported objective: "@ + self.model.objective@
            },
    {
        match self.model.predict(features, sum, logistic) {
            Ok(p) => Ok(p),
            Err(e) => Err(ModelError::Training(e)),
        }
    }

    /// The bytes that keep the model.
    pub fn serialize(&self) -> (r: Vec<u8>)
        ensures
            r@ == self.json_bytes@,
    {
        copy_bytes(self.json_bytes.as_slice())
    }

    /// Reads a model back from the bytes that keep it.
    pub fn deserialize<F: Fn(&str) -> Option<u64>>(blob: &[u8], read: &F) -> (r: Result<Self, ModelError>)
        requires
            forall|s: &str| call_requires(*read, (s,)),
        ensures
            match model_parts(json::json_bytes_document(blob@)) {
                Ok(_) => r matches Ok(w) && w.is_of(*read, blob@),
                Err(message) => r matches Err(ModelError::Serialization(e)) && e@ == message,
            },
    {
        Self::new(copy_bytes(blob), read)
    }
}

/// A value is read from a text in one way only.
pub open spec fn reads_one_way<F: Fn(&str) -> Option<u64>>(read: F) -> bool {
    forall|text: Seq<char>, a: Option<u64>, b: Option<u64>| #[trigger]
        reads_real(read, text, a) && #[trigger] reads_real(read, text, b) ==> a == b
}

proof fn lemma_value_read_once<F: Fn(&str) -> Option<u64>>(read: F, v: JsonView, a: u64, b: u64)
    requires
        reads_one_way(read),
        value_read(read, v, a),
        value_read(read, v, b),
    ensures
        a == b,
{
}

proof fn lemma_values_read_once<F: Fn(&str) -> Option<u64>>(read: F, v: Seq<JsonView>, a: Seq<u64>, b: Seq<u64>)
    requires
        reads_one_way(read),
        values_read(read, v, a),
        values_read(read, v, b),
    ensures
        a == b,
{
    assert forall|i: int| 0 <= i < a.len() implies a[i] == b[i] by {
        lemma_value_read_once(read, v[i], a[i], b[i]);
    }
    assert(a =~= b);
}

/// Keeping a model and reading it back gives the same model: the same base
/// score, features, objective and trees.
pub proof fn law_kept_model_reads_back<F: Fn(&str) -> Option<u64>>(
    read: F,
    data: Seq<u8>,
    a: XgbModelWrapper,
    b: XgbModelWrapper,
)
    requires
        reads_one_way(read),
        a.is_of(read, data),
        b.is_of(read, a.json_bytes@),
    ensures
        b.model.base_score == a.model.base_score,
        b.model.num_features == a.model.num_features,
        b.model.objective@ == a.model.objective@,
        b.model.trees@.len() == a.model.trees@.len(),
        forall|i: int|
            #![trigger a.model.trees@[i]]
            #![trigger b.model.trees@[i]]
            0 <= i < a.model.trees@.len() ==> b.model.trees@[i]@ == a.model.trees@[i]@,
{
    let parts = model_parts(json::json_bytes_document(data))->Ok_0;
    lemma_value_read_once(read, parts.base_score, a.model.base_score, b.model.base_score);
    assert forall|i: int|
        #![trigger a.model.trees@[i]]
        #![trigger b.model.trees@[i]]
        0 <= i < a.model.trees@.len() implies b.model.trees@[i]@ == a.model.trees@[i]@ by {
        let doc = parts.trees[i];
        let x = a.model.trees@[i]@;
        let y = b.model.trees@[i]@;
        assert(tree_read(read, doc, x) && tree_read(read, doc, y));
        lemma_values_read_once(read, array_at(doc, "split_conditions"@)->Ok_0, x.conditions, y.conditions);
        lemma_values_read_once(read, array_at(doc, "base_weights"@)->Ok_0, x.weights, y.weights);
        assert(x =~= y);
    }
}

} // verus!
