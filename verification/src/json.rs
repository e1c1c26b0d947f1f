//! JSON values.

use crate::outside::{json_parsed, json_tree, parse_json, unfold_json};
use vstd::prelude::*;

verus! {

/// A JSON value. What a number is is never asked.
#[derive(Debug)]
pub enum Json {
    Null,
    Bool(bool),
    Number,
    Text(String),
    Array(Vec<Json>),
    Object(Vec<(String, Json)>),
}

/// A JSON value, with sequences for its parts.
pub enum JsonTree {
    Null,
    Bool(bool),
    Number,
    Text(Seq<char>),
    Array(Seq<JsonTree>),
    Object(Seq<(Seq<char>, JsonTree)>),
}

/// The outermost layer of a value of serde_json.
pub enum JsonLayer {
    Null,
    Bool(bool),
    Number,
    Text(String),
    Array(Vec<serde_json::Value>),
    Object(Vec<(String, serde_json::Value)>),
}

impl JsonLayer {
    /// Whether this is the outermost layer of the tree.
    pub open spec fn unfolds(self, tree: JsonTree) -> bool {
        match (self, tree) {
            (JsonLayer::Null, JsonTree::Null) => true,
            (JsonLayer::Bool(b), JsonTree::Bool(c)) => b == c,
            (JsonLayer::Number, JsonTree::Number) => true,
            (JsonLayer::Text(s), JsonTree::Text(t)) => s@ == t,
            (JsonLayer::Array(v), JsonTree::Array(t)) => {
                &&& v@.len() == t.len()
                &&& forall|i: int| 0 <= i < t.len() ==> json_tree(v@[i]) == #[trigger] t[i]
            },
            (JsonLayer::Object(v), JsonTree::Object(t)) => {
                &&& v@.len() == t.len()
                &&& forall|i: int|
                    0 <= i < t.len() ==> (v@[i].0@, json_tree(v@[i].1)) == #[trigger] t[i]
                &&& forall|i: int, j: int|
                    0 <= i < j < t.len() ==> (#[trigger] t[i]).0 != (#[trigger] t[j]).0
            },
            _ => false,
        }
    }
}

impl Json {
    /// The value with sequences for its parts.
    pub open spec fn tree(self) -> JsonTree
        decreases self,
    {
        match self {
            Json::Null => JsonTree::Null,
            Json::Bool(b) => JsonTree::Bool(b),
            Json::Number => JsonTree::Number,
            Json::Text(s) => JsonTree::Text(s@),
            Json::Array(v) => JsonTree::Array(
                Seq::new(
                    v@.len(),
                    |i: int|
                        if 0 <= i < v@.len() {
                            v@[i].tree()
                        } else {
                            JsonTree::Null
                        },
                ),
            ),
            Json::Object(v) => JsonTree::Object(
                Seq::new(
                    v@.len(),
                    |i: int|
                        if 0 <= i < v@.len() {
                            (v@[i].0@, v@[i].1.tree())
                        } else {
                            (Seq::empty(), JsonTree::Null)
                        },
                ),
            ),
        }
    }

    /// Reads a value off its text.
    pub fn parse(bytes: &[u8]) -> (res: Option<Json>)
        ensures
            match res {
                Some(v) => json_parsed(bytes@) == Some(v.tree()),
                None => json_parsed(bytes@) is None,
            },
    {
        match parse_json(bytes) {
            Ok(value) => Some(Self::from_value(value)),
            Err(_) => None,
        }
    }

    fn from_value(value: serde_json::Value) -> (res: Json)
        ensures
            res.tree() == json_tree(value),
        decreases json_tree(value),
    {
        match unfold_json(value) {
            JsonLayer::Null => Json::Null,
            JsonLayer::Bool(b) => Json::Bool(b),
            JsonLayer::Number => Json::Number,
            JsonLayer::Text(s) => Json::Text(s),
            JsonLayer::Array(items) => {
                let ghost t = json_tree(value)->Array_0;
                let ghost all = items@;
                let mut rest = items;
                let mut res: Vec<Json> = Vec::new();
                while rest.len() > 0
                    invariant
                        json_tree(value) == JsonTree::Array(t),
                        all.len() == t.len(),
                        forall|i: int| 0 <= i < t.len() ==> json_tree(all[i]) == #[trigger] t[i],
                        rest@.len() + res@.len() == all.len(),
                        rest@ == all.skip(res@.len() as int),
                        forall|i: int| 0 <= i < res@.len() ==> (#[trigger] res@[i]).tree() == t[i],
                    decreases rest@.len(),
                {
                    let ghost n = res@.len() as int;
                    let item = rest.remove(0);
                    assert(item == all[n]);
                    assert(json_tree(all[n]) == t[n]);
                    assert(decreases_to!(json_tree(value) => json_tree(value)->Array_0));
                    assert(decreases_to!(t => t[n]));
                    res.push(Self::from_value(item));
                    assert(rest@ =~= all.skip(n + 1));
                }
                let out = Json::Array(res);
                assert(out.tree()->Array_0 =~= t);
                out
            },
            JsonLayer::Object(items) => {
                let ghost t = json_tree(value)->Object_0;
                let ghost all = items@;
                let mut rest = items;
                let mut res: Vec<(String, Json)> = Vec::new();
                while rest.len() > 0
                    invariant
                        json_tree(value) == JsonTree::Object(t),
                        all.len() == t.len(),
                        forall|i: int|
                            0 <= i < t.len() ==> (all[i].0@, json_tree(all[i].1)) == #[trigger] t[i],
                        rest@.len() + res@.len() == all.len(),
                        rest@ == all.skip(res@.len() as int),
                        forall|i: int|
                            0 <= i < res@.len() ==> ((#[trigger] res@[i]).0@, res@[i].1.tree())
                                == t[i],
                    decreases rest@.len(),
                {
                    let ghost n = res@.len() as int;
                    let item = rest.remove(0);
                    assert(item == all[n]);
                    assert((all[n].0@, json_tree(all[n].1)) == t[n]);
                    assert(decreases_to!(json_tree(value) => json_tree(value)->Object_0));
                    assert(decreases_to!(t => t[n]));
                    assert(decreases_to!(t[n] => t[n].1));
                    res.push((item.0, Self::from_value(item.1)));
                    assert(rest@ =~= all.skip(n + 1));
                }
                let out = Json::Object(res);
                assert(out.tree()->Object_0 =~= t);
                out
            },
        }
    }
}

} // verus!
