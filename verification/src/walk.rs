//! A listing of a syntax tree for inspection: one line for each node,
//! indented by its depth, with the value of every name that is bound.

use crate::distr::stat_text;
use crate::env::{lines_of, Env};
use crate::eval::MAX_DEPTH;
use crate::symbols::{
    fn_val_text, lemma_symbols_model, symbols_model, Symbol, SymbolModel,
};
use crate::text::{int_digits, push_int, push_repeated, push_str, string_of};
use crate::typing::Vars;
use vstd::prelude::*;

verus! {

/// A run of `n` spaces.
pub open spec fn spaces(n: nat) -> Seq<char> {
    Seq::new(n, |i: int| ' ')
}

/// How much deeper the children of a node are indented.
pub const INDENT_STEP: usize = 4;

/// The listings of the first `n` of the given symbols, one after the other.
pub open spec fn walk_all(
    v: Seq<SymbolModel>,
    vars: Vars,
    indent: nat,
    depth: nat,
    n: int,
) -> Seq<Seq<char>>
    decreases depth, n,
{
    if n <= 0 || n > v.len() {
        Seq::empty()
    } else {
        walk_all(v, vars, indent, depth, n - 1) + walk_of(v[n - 1], vars, indent, depth)
    }
}

/// The listing of a symbol: the line of the node itself, after `indent`
/// spaces, and under it the listings of its children, four spaces deeper.
/// Under a name stands the listing of the value it is bound to. Where the
/// listing nests deeper than `depth`, an ellipsis stands for what is left
/// out.
pub open spec fn walk_of(s: SymbolModel, vars: Vars, indent: nat, depth: nat) -> Seq<Seq<char>>
    decreases depth, 0int,
{
    if depth == 0 {
        seq![spaces(indent) + "..."@]
    } else {
        let inner = (depth - 1) as nat;
        let deeper = indent + INDENT_STEP as nat;
        match s {
            SymbolModel::Nil => seq![spaces(indent) + "Nil"@],
            SymbolModel::Text(t) => seq![spaces(indent) + "Text "@ + t + " := "@] + (
            if vars.contains_key(t) {
                walk_of(vars[t].0, vars, deeper, inner)
            } else {
                Seq::empty()
            }),
            SymbolModel::Num(n) => seq![spaces(indent) + "Num: "@ + int_digits(n)],
            SymbolModel::Distr(d) => seq![spaces(indent) + "Distr"@ + stat_text(d)],
            SymbolModel::Fn(f) => seq![
                spaces(indent) + fn_val_text(f) + ", captured: "@,
                spaces(indent) + "["@,
            ] + walk_all(f.exprs, vars, deeper, inner, f.exprs.len() as int) + seq![
                spaces(indent) + "]"@,
            ],
            SymbolModel::Sequence(v) => seq![spaces(indent) + "Seq: ["@] + walk_all(
                v,
                vars,
                deeper,
                inner,
                v.len() as int,
            ) + seq![spaces(indent) + "]"@],
            SymbolModel::Apply { target, args } => seq![spaces(indent) + "Apply Fn"@] + walk_of(
                *target,
                vars,
                deeper,
                inner,
            ) + seq![spaces(indent) + " to "@] + walk_all(
                args,
                vars,
                deeper,
                inner,
                args.len() as int,
            ),
            SymbolModel::Assigner { name, def_type, expr } => seq![
                spaces(indent) + "Assigner["@ + name + (match def_type {
                    Some(t) => ": "@ + t,
                    None => Seq::empty(),
                }) + "]"@,
            ] + walk_of(*expr, vars, deeper, inner),
        }
    }
}

/// The texts of a longer list of lines are those of the shorter one and
/// the text of the line put after it.
pub proof fn lemma_lines_push(lines: Seq<String>, line: String)
    ensures
        lines_of(lines.push(line)) == lines_of(lines).push(line@),
{
    assert(lines_of(lines.push(line)) =~= lines_of(lines).push(line@));
}

/// Begins a line with its indentation.
fn begin(indent: usize) -> (buf: Vec<char>)
    ensures
        buf@ == spaces(indent as nat),
{
    let mut buf: Vec<char> = Vec::new();
    push_repeated(&mut buf, ' ', indent);
    buf
}

/// Puts a finished line under the others.
fn end(out: &mut Vec<String>, buf: &Vec<char>)
    ensures
        lines_of(final(out)@) == lines_of(old(out)@).push(buf@),
{
    let line = string_of(buf);
    proof {
        lemma_lines_push(out@, line);
    }
    out.push(line);
}

/// Puts the line that is `indent` spaces and `text` under the others.
fn line(out: &mut Vec<String>, indent: usize, text: &str)
    ensures
        lines_of(final(out)@) == lines_of(old(out)@).push(spaces(indent as nat) + text@),
{
    let mut buf = begin(indent);
    push_str(&mut buf, text);
    end(out, &buf);
}

/// Puts the listings of the symbols of a list under the lines of `out`.
fn walk_list(out: &mut Vec<String>, v: &Vec<Symbol>, env: &Env, indent: usize, depth: usize)
    requires
        indent + INDENT_STEP * depth <= usize::MAX,
    ensures
        lines_of(final(out)@) == lines_of(old(out)@) + walk_all(
            symbols_model(v@),
            env@.vars,
            indent as nat,
            depth as nat,
            v@.len() as int,
        ),
    decreases depth, v@.len() + 1,
{
    let ghost m = symbols_model(v@);
    let ghost start = lines_of(out@);
    let mut i: usize = 0;
    proof {
        lemma_symbols_model(v@);
    }
    while i < v.len()
        invariant
            i <= v@.len(),
            indent + INDENT_STEP * depth <= usize::MAX,
            m == symbols_model(v@),
            m.len() == v@.len(),
            forall|k: int| 0 <= k < v@.len() ==> #[trigger] m[k] == v@[k]@,
            lines_of(out@) == start + walk_all(m, env@.vars, indent as nat, depth as nat, i as int),
        decreases v@.len() - i,
    {
        walk_into(out, &v[i], env, indent, depth);
        i += 1;
    }
}

/// Puts the listing of a symbol under the lines of `out`.
fn walk_into(out: &mut Vec<String>, s: &Symbol, env: &Env, indent: usize, depth: usize)
    requires
        indent + INDENT_STEP * depth <= usize::MAX,
    ensures
        lines_of(final(out)@) == lines_of(old(out)@) + walk_of(
            s@,
            env@.vars,
            indent as nat,
            depth as nat,
        ),
    decreases depth, 0nat,
{
    if depth == 0 {
        line(out, indent, "...");
        return ;
    }
    let inner = depth - 1;
    let deeper = indent + INDENT_STEP;
    match s {
        Symbol::Nil => {
            line(out, indent, "Nil");
            assert(lines_of(out@) =~= lines_of(old(out)@) + walk_of(
                s@,
                env@.vars,
                indent as nat,
                depth as nat,
            ));
        },
        Symbol::Text(text) => {
            let mut buf = begin(indent);
            push_str(&mut buf, "Text ");
            push_str(&mut buf, text.as_str());
            push_str(&mut buf, " := ");
            end(out, &buf);
            match env.lookup_var(text.as_str()) {
                Some((symbol, _)) => walk_into(out, symbol, env, deeper, inner),
                None => {},
            }
            assert(lines_of(out@) =~= lines_of(old(out)@) + walk_of(
                s@,
                env@.vars,
                indent as nat,
                depth as nat,
            ));
        },
        Symbol::Num(num) => {
            let mut buf = begin(indent);
            push_str(&mut buf, "Num: ");
            push_int(&mut buf, *num as i128);
            end(out, &buf);
            assert(lines_of(out@) =~= lines_of(old(out)@) + walk_of(
                s@,
                env@.vars,
                indent as nat,
                depth as nat,
            ));
        },
        Symbol::Distr(distr) => {
            let mut buf = begin(indent);
            push_str(&mut buf, "Distr");
            push_str(&mut buf, distr.stat_view().as_str());
            end(out, &buf);
            assert(lines_of(out@) =~= lines_of(old(out)@) + walk_of(
                s@,
                env@.vars,
                indent as nat,
                depth as nat,
            ));
        },
        Symbol::Fn(f) => {
            let mut buf = begin(indent);
            push_str(&mut buf, f.repr().as_str());
            push_str(&mut buf, ", captured: ");
            end(out, &buf);
            line(out, indent, "[");
            proof {
                lemma_symbols_model(f.exprs@);
            }
            walk_list(out, &f.exprs, env, deeper, inner);
            line(out, indent, "]");
            assert(lines_of(out@) =~= lines_of(old(out)@) + walk_of(
                s@,
                env@.vars,
                indent as nat,
                depth as nat,
            ));
        },
        Symbol::Sequence(v) => {
            line(out, indent, "Seq: [");
            proof {
                lemma_symbols_model(v@);
            }
            walk_list(out, v, env, deeper, inner);
            line(out, indent, "]");
            assert(lines_of(out@) =~= lines_of(old(out)@) + walk_of(
                s@,
                env@.vars,
                indent as nat,
                depth as nat,
            ));
        },
        Symbol::Apply { target, args } => {
            line(out, indent, "Apply Fn");
            walk_into(out, target, env, deeper, inner);
            line(out, indent, " to ");
            proof {
                lemma_symbols_model(args@);
            }
            walk_list(out, args, env, deeper, inner);
            assert(lines_of(out@) =~= lines_of(old(out)@) + walk_of(
                s@,
                env@.vars,
                indent as nat,
                depth as nat,
            ));
        },
        Symbol::Assigner { name, def_type, expr } => {
            let mut buf = begin(indent);
            push_str(&mut buf, "Assigner[");
            push_str(&mut buf, name.as_str());
            match def_type {
                Some(t) => {
                    push_str(&mut buf, ": ");
                    push_str(&mut buf, t.as_str());
                },
                None => {},
            }
            push_str(&mut buf, "]");
            assert(buf@ =~= spaces(indent as nat) + "Assigner["@ + name@ + (match def_type {
                Some(t) => ": "@ + t@,
                None => Seq::empty(),
            }) + "]"@);
            end(out, &buf);
            walk_into(out, expr, env, deeper, inner);
            assert(lines_of(out@) =~= lines_of(old(out)@) + walk_of(
                s@,
                env@.vars,
                indent as nat,
                depth as nat,
            ));
        },
    }
}

impl Symbol {
    /// The listing of the symbol for inspection, as lines: every node on a
    /// line of its own, indented by `indent_level` spaces and four more for
    /// every level below, and under every bound name the listing of its
    /// value.
    pub fn walk(&self, env: &Env, indent_level: usize) -> (r: Vec<String>)
        requires
            indent_level + INDENT_STEP * MAX_DEPTH <= usize::MAX,
        ensures
            lines_of(r@) == walk_of(self@, env@.vars, indent_level as nat, MAX_DEPTH as nat),
    {
        let mut out: Vec<String> = Vec::new();
        assert(lines_of(out@) =~= Seq::<Seq<char>>::empty());
        walk_into(&mut out, self, env, indent_level, MAX_DEPTH);
        out
    }
}

} // verus!
