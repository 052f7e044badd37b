//! Front end of a small statically-typed language: a lexer with
//! newline-as-separator layout handling, a parser for `name : Type` /
//! `name = expr` declarations, and an evaluator that maps each declared
//! name to its value.

pub mod error;
pub mod lexer;
pub mod syntax;

use crate::error::Error;
use crate::lexer::{lemma_lex_spans, spec_lex, Span};
use crate::syntax::{
    lemma_parse_decls_wf, parse, parse_failure, spec_parse, tree_wf, Declaration, Expr,
    SyntaxTree,
};
use vstd::prelude::*;

verus! {

/// A value in our programming language.
#[derive(Debug, Clone, Copy, PartialEq, Eq, Structural)]
pub enum Value {
    Number(i64),
}

/// The map described by a sequence of name/value entries, a later entry
/// overriding an earlier one with the same name.
pub open spec fn map_of(entries: Seq<(String, Value)>) -> Map<Seq<char>, Value>
    decreases entries.len(),
{
    if entries.len() == 0 {
        Map::empty()
    } else {
        map_of(entries.drop_last()).insert(entries.last().0@, entries.last().1)
    }
}

/// A context maps names to their evaluations.
#[derive(Debug, Clone)]
pub struct Context {
    names: Vec<(String, Value)>,
}

impl View for Context {
    type V = Map<Seq<char>, Value>;

    closed spec fn view(&self) -> Map<Seq<char>, Value> {
        map_of(self.names@)
    }
}

/// Entries at positions `j` and beyond whose names all differ from `x` do not
/// affect what the entry map holds at `x`.
proof fn lemma_map_of_skip(entries: Seq<(String, Value)>, j: int, x: Seq<char>)
    requires
        0 <= j <= entries.len(),
        forall|k: int| j <= k < entries.len() ==> (#[trigger] entries[k]).0@ != x,
    ensures
        map_of(entries).contains_key(x) == map_of(entries.take(j)).contains_key(x),
        map_of(entries).contains_key(x) ==> map_of(entries)[x] == map_of(entries.take(j))[x],
    decreases entries.len() - j,
{
    if j == entries.len() {
        assert(entries.take(j) =~= entries);
    } else {
        lemma_map_of_skip(entries, j + 1, x);
        assert(entries.take(j + 1).drop_last() =~= entries.take(j));
        assert(entries.take(j + 1).last() == entries[j]);
        assert(map_of(entries.take(j + 1)) == map_of(entries.take(j)).insert(
            entries[j].0@,
            entries[j].1,
        ));
    }
}

impl Context {
    /// Get the value of a name in this context, if any.
    pub fn get(&self, name: &str) -> (r: Option<Value>)
        ensures
            r == if self@.contains_key(name@) {
                Some(self@[name@])
            } else {
                None::<Value>
            },
    {
        let key = String::from_str(name);
        let mut j = self.names.len();
        while j > 0
            invariant
                j <= self.names@.len(),
                key@ == name@,
                forall|k: int|
                    j <= k < self.names@.len() ==> (#[trigger] self.names@[k]).0@ != name@,
            decreases j,
        {
            j = j - 1;
            if self.names[j].0 == key {
                let v = self.names[j].1;
                proof {
                    lemma_map_of_skip(self.names@, j + 1, name@);
                    assert(self.names@.take(j + 1).drop_last() =~= self.names@.take(j as int));
                    assert(self.names@.take(j + 1).last() == self.names@[j as int]);
                    assert(map_of(self.names@.take(j + 1)) == map_of(
                        self.names@.take(j as int),
                    ).insert(self.names@[j as int].0@, self.names@[j as int].1));
                }
                return Some(v);
            }
        }
        proof {
            lemma_map_of_skip(self.names@, 0, name@);
            assert(self.names@.take(0) =~= Seq::<(String, Value)>::empty());
            assert(map_of(Seq::<(String, Value)>::empty()) == Map::<Seq<char>, Value>::empty());
        }
        None
    }
}

/// The text a span refers to, read back from the original source.
pub open spec fn span_text(s: Seq<char>, sp: Span) -> Seq<char> {
    s.subrange(sp.start as int, sp.start + sp.len)
}

/// The value a declaration's body evaluates to.
pub open spec fn spec_decl_value(d: Declaration) -> Value {
    match d.body {
        Expr::IntegerLiteral(n) => Value::Number(n),
    }
}

/// The evaluation of a sequence of declarations: each maps its defined name
/// to its body's value, a later declaration overriding an earlier one.
pub open spec fn decls_map(s: Seq<char>, ds: Seq<Declaration>) -> Map<Seq<char>, Value>
    decreases ds.len(),
{
    if ds.len() == 0 {
        Map::empty()
    } else {
        decls_map(s, ds.drop_last()).insert(
            span_text(s, ds.last().body_name.0),
            spec_decl_value(ds.last()),
        )
    }
}

/// Evaluate a syntax tree against the source text it was parsed from:
/// each declaration maps the name its body line defines to that body's
/// value.
pub fn eval_tree(source: &str, tree: &SyntaxTree) -> (r: Result<Context, Error>)
    requires
        tree_wf(source@, tree.declarations@),
    ensures
        r matches Ok(c) && c@ == decls_map(source@, tree.declarations@),
{
    let n = source.unicode_len();
    let mut names: Vec<(String, Value)> = Vec::new();
    let mut i: usize = 0;
    while i < tree.declarations.len()
        invariant
            i <= tree.declarations@.len(),
            tree_wf(source@, tree.declarations@),
            n == source@.len(),
            map_of(names@) == decls_map(source@, tree.declarations@.take(i as int)),
        decreases tree.declarations@.len() - i,
    {
        let d = tree.declarations[i];
        let sp = d.body_name.0;
        let text = source.substring_char(sp.start, sp.start + sp.len);
        let key = String::from_str(text);
        let v = match d.body {
            Expr::IntegerLiteral(x) => Value::Number(x),
        };
        proof {
            assert(tree.declarations@.take(i + 1).drop_last() =~= tree.declarations@.take(
                i as int,
            ));
            assert(tree.declarations@.take(i + 1).last() == tree.declarations@[i as int]);
            assert(names@.push((key, v)).drop_last() =~= names@);
            assert(names@.push((key, v)).last() == (key, v));
        }
        names.push((key, v));
        i = i + 1;
    }
    proof {
        assert(tree.declarations@.take(i as int) =~= tree.declarations@);
    }
    Ok(Context { names })
}

/// Take in a source file, and produce the evaluation context.
///
/// This context will map each definition in the file to its evaluation.
/// A front-end failure is propagated unchanged: the error carries the same
/// message `parse` reports for this source.
pub fn eval(source: &str) -> (r: Result<Context, Error>)
    ensures
        match r {
            Ok(c) => spec_lex(source@, 0) matches Ok(toks) && spec_parse(toks, 0) matches Some(
                ds,
            ) && c@ == decls_map(source@, ds),
            Err(e) => parse_failure(source@, e),
        },
{
    let n = source.unicode_len();
    let tree = match parse(source) {
        Ok(t) => t,
        Err(e) => {
            return Err(e);
        },
    };
    proof {
        lemma_lex_spans(source@, 0);
        lemma_parse_decls_wf(source@, spec_lex(source@, 0)->Ok_0, 0);
    }
    eval_tree(source, &tree)
}

} // verus!
