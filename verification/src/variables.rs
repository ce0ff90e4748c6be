//! The variable table of one function, and the pass over the function that
//! fills it before any statement is lowered.
//!
//! A name becomes a variable where it is first met: the parameters in their
//! order, then the name of the result, then the target of every assignment
//! in the function, at any depth, in the order of a walk that visits an
//! expression before the expressions inside it and those from left to right.

use vstd::prelude::*;
use crate::ast::Expr;
use crate::builder::{BuilderState, FunctionBuilder};
use crate::ir::{integers, Block, OpView, Type, Value, Variable};
use crate::scope::{assignment_to, law_table_holds_what_is_introduced, occurs_from};
use crate::names::{at, distinct, lemma_distinct_push, lemma_position_at, position, texts};

verus! {

/// The variable that a name is bound to: its position in the table.
pub open spec fn lookup(names: Seq<Seq<char>>, name: Seq<char>) -> Option<Variable> {
    match position(names, name) {
        Some(i) => Some(Variable(i as usize)),
        None => None,
    }
}

/// In a table without duplicates a name is bound to the one position that
/// holds it.
proof fn lemma_lookup_at(names: Seq<Seq<char>>, name: Seq<char>, i: int)
    requires
        distinct(names),
        at(names, name, i),
    ensures
        lookup(names, name) == Some(Variable(i as usize)),
{
    lemma_position_at(names, name, i);
}

/// The names of one function's variables; a name's position is its variable.
pub struct VariableTable {
    names: Vec<String>,
}

impl View for VariableTable {
    type V = Seq<Seq<char>>;

    closed spec fn view(&self) -> Seq<Seq<char>> {
        texts(self.names@)
    }
}

impl VariableTable {
    /// No name occurs twice.
    pub open spec fn wf(&self) -> bool {
        distinct(self@)
    }

    /// The empty table.
    pub fn new() -> (table: VariableTable)
        ensures
            table.wf(),
            table@ == Seq::<Seq<char>>::empty(),
    {
        let table = VariableTable { names: Vec::new() };
        assert(table@ =~= Seq::<Seq<char>>::empty());
        table
    }

    /// A table holds no more names than a handle can count.
    pub proof fn lemma_bounded(&self)
        ensures
            self@.len() <= usize::MAX,
    {
        assert(self.names@.len() == self.names.len());
    }

    /// The number of variables.
    pub fn len(&self) -> (n: usize)
        ensures
            n == self@.len(),
    {
        self.names.len()
    }

    /// The variable bound to `name`, if there is one.
    pub fn get(&self, name: &str) -> (var: Option<Variable>)
        requires
            self.wf(),
        ensures
            var == lookup(self@, name@),
    {
        let key = name.to_owned();
        let mut i: usize = 0;
        while i < self.names.len()
            invariant
                i <= self.names.len(),
                self.wf(),
                key@ == name@,
                forall|k: int| 0 <= k < i ==> !at(self@, name@, k),
            decreases self.names.len() - i,
        {
            if self.names[i] == key {
                proof {
                    assert(at(self@, name@, i as int));
                    lemma_lookup_at(self@, name@, i as int);
                }
                return Some(Variable(i));
            }
            i = i + 1;
        }
        None
    }

    /// Binds a new name to the next variable.
    fn push(&mut self, name: &str)
        requires
            old(self).wf(),
            lookup(old(self)@, name@) is None,
        ensures
            final(self).wf(),
            final(self)@ == old(self)@.push(name@),
    {
        let ghost before = self@;
        self.names.push(name.to_owned());
        assert(self@ =~= before.push(name@));
        proof {
            lemma_distinct_push(before, name@);
        }
    }
}

/// The two things that the declaring pass advances together.
pub struct Declaring {
    pub builder: BuilderState,
    pub table: Seq<Seq<char>>,
}

/// A builder state and a table, taken together.
pub open spec fn declaring(builder: BuilderState, table: Seq<Seq<char>>) -> Declaring {
    Declaring { builder, table }
}

/// The first `count` variables, each an integer.
pub open spec fn integer_variables(count: nat) -> Map<Variable, Type> {
    Map::new(|var: Variable| (var.0 as int) < count, |var: Variable| Type::I32)
}

/// The builder has declared exactly the table's variables, as integers.
pub open spec fn in_step(builder: BuilderState, table: Seq<Seq<char>>) -> bool {
    builder.variables == integer_variables(table.len())
}

/// Meeting a name: a name already in the table changes nothing; a new one
/// gets the next variable, which is declared as an integer.
pub open spec fn declare_name(d: Declaring, name: Seq<char>) -> Declaring {
    if lookup(d.table, name) is Some {
        d
    } else {
        Declaring {
            builder: d.builder.step(
                OpView::DeclareVar(Variable(d.table.len() as usize), Type::I32),
            ),
            table: d.table.push(name),
        }
    }
}

/// The pass over one expression: an assignment declares its target, and
/// every expression inside the expression is passed over in turn: the
/// right-hand side of an assignment, the operands of arithmetic and of
/// comparisons, the condition and the bodies of conditionals and loops, the
/// arguments of calls.
pub open spec fn scan_stmt(e: Expr, d: Declaring) -> Declaring
    decreases e, 0nat,
{
    match e {
        Expr::Literal(_) => d,
        Expr::Identifier(_) => d,
        Expr::Assign(name, rhs) => scan_stmt(*rhs, declare_name(d, name@)),
        Expr::Add(lhs, rhs) | Expr::Sub(lhs, rhs) | Expr::Mul(lhs, rhs) | Expr::Div(lhs, rhs) => scan_stmt(
            *rhs,
            scan_stmt(*lhs, d),
        ),
        Expr::Eq(lhs, rhs) | Expr::Ne(lhs, rhs) | Expr::Lt(lhs, rhs) | Expr::Le(lhs, rhs) | Expr::Gt(
            lhs,
            rhs,
        ) | Expr::Ge(lhs, rhs) => scan_stmt(*rhs, scan_stmt(*lhs, d)),
        Expr::IfElse(condition, then_body, else_body) => scan_stmts(
            else_body@,
            0,
            scan_stmts(then_body@, 0, scan_stmt(*condition, d)),
        ),
        Expr::WhileLoop(condition, body) => scan_stmts(body@, 0, scan_stmt(*condition, d)),
        Expr::Call(_, args) => scan_stmts(args@, 0, d),
    }
}

/// The pass over the expressions from position `i` on, in order.
pub open spec fn scan_stmts(stmts: Seq<Expr>, i: int, d: Declaring) -> Declaring
    decreases stmts, stmts.len() - i,
{
    if 0 <= i < stmts.len() {
        scan_stmts(stmts, i + 1, scan_stmt(stmts[i], d))
    } else {
        d
    }
}

/// Whether the table holds the target of every assignment in the
/// expression, at any depth.
pub open spec fn targets_known(e: Expr, table: Seq<Seq<char>>) -> bool
    decreases e, 0nat,
{
    match e {
        Expr::Literal(_) => true,
        Expr::Identifier(_) => true,
        Expr::Assign(name, rhs) => lookup(table, name@) is Some && targets_known(*rhs, table),
        Expr::Add(lhs, rhs) | Expr::Sub(lhs, rhs) | Expr::Mul(lhs, rhs) | Expr::Div(lhs, rhs) => targets_known(
            *lhs,
            table,
        ) && targets_known(*rhs, table),
        Expr::Eq(lhs, rhs) | Expr::Ne(lhs, rhs) | Expr::Lt(lhs, rhs) | Expr::Le(lhs, rhs) | Expr::Gt(
            lhs,
            rhs,
        ) | Expr::Ge(lhs, rhs) => targets_known(*lhs, table) && targets_known(*rhs, table),
        Expr::IfElse(condition, then_body, else_body) => targets_known(*condition, table)
            && targets_known_from(then_body@, 0, table) && targets_known_from(
            else_body@,
            0,
            table,
        ),
        Expr::WhileLoop(condition, body) => targets_known(*condition, table)
            && targets_known_from(body@, 0, table),
        Expr::Call(_, args) => targets_known_from(args@, 0, table),
    }
}

/// Whether the table holds the target of every assignment in the
/// expressions from position `i` on.
pub open spec fn targets_known_from(exprs: Seq<Expr>, i: int, table: Seq<Seq<char>>) -> bool
    decreases exprs, exprs.len() - i,
{
    if 0 <= i < exprs.len() {
        targets_known(exprs[i], table) && targets_known_from(exprs, i + 1, table)
    } else {
        true
    }
}

/// Every name of the first table stands at the same place in the second.
pub open spec fn begins(longer: Seq<Seq<char>>, table: Seq<Seq<char>>) -> bool {
    &&& table.len() <= longer.len()
    &&& forall|i: int| 0 <= i < table.len() ==> longer[i] == table[i]
}

/// A name that a table holds is held by every table that begins with it.
pub(crate) proof fn lemma_lookup_kept(table: Seq<Seq<char>>, longer: Seq<Seq<char>>, name: Seq<char>)
    requires
        begins(longer, table),
        lookup(table, name) is Some,
    ensures
        lookup(longer, name) is Some,
{
    let i = choose|i: int| at(table, name, i);
    assert(at(table, name, i));
    assert(at(longer, name, i));
}

/// Targets that a table holds are held by every table that begins with it.
pub(crate) proof fn lemma_targets_kept(e: Expr, table: Seq<Seq<char>>, longer: Seq<Seq<char>>)
    requires
        begins(longer, table),
        targets_known(e, table),
    ensures
        targets_known(e, longer),
    decreases e, 0nat,
{
    match e {
        Expr::Literal(_) => {},
        Expr::Identifier(_) => {},
        Expr::Assign(name, rhs) => {
            lemma_lookup_kept(table, longer, name@);
            lemma_targets_kept(*rhs, table, longer);
        },
        Expr::Add(lhs, rhs) | Expr::Sub(lhs, rhs) | Expr::Mul(lhs, rhs) | Expr::Div(lhs, rhs) => {
            lemma_targets_kept(*lhs, table, longer);
            lemma_targets_kept(*rhs, table, longer);
        },
        Expr::Eq(lhs, rhs) | Expr::Ne(lhs, rhs) | Expr::Lt(lhs, rhs) | Expr::Le(lhs, rhs) | Expr::Gt(
            lhs,
            rhs,
        ) | Expr::Ge(lhs, rhs) => {
            lemma_targets_kept(*lhs, table, longer);
            lemma_targets_kept(*rhs, table, longer);
        },
        Expr::IfElse(condition, then_body, else_body) => {
            lemma_targets_kept(*condition, table, longer);
            lemma_targets_kept_from(then_body@, 0, table, longer);
            lemma_targets_kept_from(else_body@, 0, table, longer);
        },
        Expr::WhileLoop(condition, body) => {
            lemma_targets_kept(*condition, table, longer);
            lemma_targets_kept_from(body@, 0, table, longer);
        },
        Expr::Call(_, args) => {
            lemma_targets_kept_from(args@, 0, table, longer);
        },
    }
}

/// Targets that a table holds are held by every table that begins with it.
pub(crate) proof fn lemma_targets_kept_from(
    exprs: Seq<Expr>,
    i: int,
    table: Seq<Seq<char>>,
    longer: Seq<Seq<char>>,
)
    requires
        begins(longer, table),
        targets_known_from(exprs, i, table),
    ensures
        targets_known_from(exprs, i, longer),
    decreases exprs, exprs.len() - i,
{
    if 0 <= i < exprs.len() {
        lemma_targets_kept(exprs[i], table, longer);
        lemma_targets_kept_from(exprs, i + 1, table, longer);
    }
}

/// Meeting a name leaves the names of the table where they are, and the
/// table holds the name afterwards.
pub(crate) proof fn lemma_declare_name_begins(d: Declaring, name: Seq<char>)
    ensures
        begins(declare_name(d, name).table, d.table),
        lookup(declare_name(d, name).table, name) is Some,
{
    if lookup(d.table, name) is None {
        assert(at(d.table.push(name), name, d.table.len() as int));
    }
}

/// After the pass over an expression the table begins with the table before
/// it and holds the target of every assignment in the expression.
pub(crate) proof fn lemma_scan_knows(e: Expr, d: Declaring)
    ensures
        begins(scan_stmt(e, d).table, d.table),
        targets_known(e, scan_stmt(e, d).table),
    decreases e, 0nat,
{
    let after = scan_stmt(e, d).table;
    match e {
        Expr::Literal(_) => {},
        Expr::Identifier(_) => {},
        Expr::Assign(name, rhs) => {
            let met = declare_name(d, name@);
            lemma_declare_name_begins(d, name@);
            lemma_scan_knows(*rhs, met);
            lemma_lookup_kept(met.table, after, name@);
        },
        Expr::Add(lhs, rhs) | Expr::Sub(lhs, rhs) | Expr::Mul(lhs, rhs) | Expr::Div(lhs, rhs) => {
            let half = scan_stmt(*lhs, d);
            lemma_scan_knows(*lhs, d);
            lemma_scan_knows(*rhs, half);
            lemma_targets_kept(*lhs, half.table, after);
        },
        Expr::Eq(lhs, rhs) | Expr::Ne(lhs, rhs) | Expr::Lt(lhs, rhs) | Expr::Le(lhs, rhs) | Expr::Gt(
            lhs,
            rhs,
        ) | Expr::Ge(lhs, rhs) => {
            let half = scan_stmt(*lhs, d);
            lemma_scan_knows(*lhs, d);
            lemma_scan_knows(*rhs, half);
            lemma_targets_kept(*lhs, half.table, after);
        },
        Expr::IfElse(condition, then_body, else_body) => {
            let tested = scan_stmt(*condition, d);
            let half = scan_stmts(then_body@, 0, tested);
            lemma_scan_knows(*condition, d);
            lemma_scan_knows_from(then_body@, 0, tested);
            lemma_scan_knows_from(else_body@, 0, half);
            lemma_targets_kept(*condition, tested.table, half.table);
            lemma_targets_kept(*condition, half.table, after);
            lemma_targets_kept_from(then_body@, 0, half.table, after);
        },
        Expr::WhileLoop(condition, body) => {
            let tested = scan_stmt(*condition, d);
            lemma_scan_knows(*condition, d);
            lemma_scan_knows_from(body@, 0, tested);
            lemma_targets_kept(*condition, tested.table, after);
        },
        Expr::Call(_, args) => {
            lemma_scan_knows_from(args@, 0, d);
        },
    }
}

/// After the pass over expressions the table begins with the table before
/// it and holds the target of every assignment in the expressions.
pub(crate) proof fn lemma_scan_knows_from(exprs: Seq<Expr>, i: int, d: Declaring)
    ensures
        begins(scan_stmts(exprs, i, d).table, d.table),
        targets_known_from(exprs, i, scan_stmts(exprs, i, d).table),
    decreases exprs, exprs.len() - i,
{
    if 0 <= i < exprs.len() {
        let next = scan_stmt(exprs[i], d);
        lemma_scan_knows(exprs[i], d);
        lemma_scan_knows_from(exprs, i + 1, next);
        lemma_targets_kept(exprs[i], next.table, scan_stmts(exprs, i + 1, next).table);
    }
}

/// Binding the parameters from position `i` on: each name is met, then bound
/// to the entry block's parameter at the same position.
pub open spec fn bind_params(
    params: Seq<Seq<char>>,
    i: int,
    d: Declaring,
    entry_params: Seq<Value>,
) -> Declaring
    decreases params.len() - i,
{
    if 0 <= i < params.len() {
        let met = declare_name(d, params[i]);
        let var = lookup(met.table, params[i])->Some_0;
        bind_params(
            params,
            i + 1,
            Declaring { builder: met.builder.step(OpView::DefVar(var, entry_params[i])), ..met },
            entry_params,
        )
    } else {
        d
    }
}

/// Binding the name of the result: a zero is emitted, the name is met, and it
/// is bound to the zero.
pub open spec fn bind_result(the_return: Seq<char>, d: Declaring) -> Declaring {
    let zero = d.builder.next_value();
    let met = declare_name(
        Declaring { builder: d.builder.step(OpView::Iconst(0)), ..d },
        the_return,
    );
    let var = lookup(met.table, the_return)->Some_0;
    Declaring { builder: met.builder.step(OpView::DefVar(var, zero)), ..met }
}

/// The whole pass: parameters, result, statements.
pub open spec fn declare_all(
    builder: BuilderState,
    params: Seq<Seq<char>>,
    the_return: Seq<char>,
    stmts: Seq<Expr>,
    entry: Block,
) -> Declaring {
    let start = Declaring { builder, table: Seq::empty() };
    let bound = bind_params(params, 0, start, builder.block(entry).params);
    scan_stmts(stmts, 0, bind_result(the_return, bound))
}

/// What the pass keeps: the table stays free of duplicates and in step with
/// the builder, and the builder moves on within its current block.
pub open spec fn keeps(before: Declaring, after: Declaring) -> bool {
    &&& distinct(after.table)
    &&& in_step(after.builder, after.table)
    &&& before.builder.advances_to(after.builder)
    &&& after.builder.current == before.builder.current
    &&& after.builder.blocks.len() == before.builder.blocks.len()
    &&& before.table.len() <= after.table.len()
    &&& forall|i: int| 0 <= i < before.table.len() ==> after.table[i] == before.table[i]
}

/// What the pass keeps over two stretches it keeps over both.
pub(crate) proof fn lemma_keeps_on(a: Declaring, b: Declaring, c: Declaring)
    requires
        keeps(a, b),
        keeps(b, c),
    ensures
        keeps(a, c),
{
    a.builder.lemma_advances_trans(b.builder, c.builder);
}

/// Meets `name`: declares it unless the table has it, and gives its variable.
pub fn declare_variable(
    builder: &mut FunctionBuilder,
    variables: &mut VariableTable,
    name: &str,
) -> (var: Variable)
    requires
        old(builder).wf(),
        old(builder)@.can_emit(),
        old(variables).wf(),
        in_step(old(builder)@, old(variables)@),
    ensures
        final(builder).wf(),
        declaring(final(builder)@, final(variables)@) == declare_name(
            declaring(old(builder)@, old(variables)@),
            name@,
        ),
        keeps(
            declaring(old(builder)@, old(variables)@),
            declaring(final(builder)@, final(variables)@),
        ),
        lookup(final(variables)@, name@) == Some(var),
        (var.0 as int) < final(variables)@.len(),
{
    match variables.get(name) {
        Some(var) => {
            proof {
                let i = choose|i: int| at(variables@, name@, i);
                assert(at(variables@, name@, i));
            }
            var
        },
        None => {
            let ghost before = variables@;
            let var = Variable(variables.len());
            assert(!builder@.declared(var));
            variables.push(name);
            builder.declare_var(var, Type::I32);
            proof {
                assert(at(variables@, name@, before.len() as int));
                lemma_lookup_at(variables@, name@, before.len() as int);
                assert(integer_variables(before.len()).insert(var, Type::I32)
                    =~= integer_variables(variables@.len()));
            }
            var
        },
    }
}

/// The pass over one expression.
pub fn declare_variables_in_stmt(
    builder: &mut FunctionBuilder,
    variables: &mut VariableTable,
    expr: &Expr,
)
    requires
        old(builder).wf(),
        old(builder)@.can_emit(),
        old(variables).wf(),
        in_step(old(builder)@, old(variables)@),
    ensures
        final(builder).wf(),
        declaring(final(builder)@, final(variables)@) == scan_stmt(
            *expr,
            declaring(old(builder)@, old(variables)@),
        ),
        keeps(
            declaring(old(builder)@, old(variables)@),
            declaring(final(builder)@, final(variables)@),
        ),
        targets_known(*expr, final(variables)@),
    decreases expr, 0nat,
{
    let ghost start = declaring(builder@, variables@);
    match expr {
        Expr::Literal(_) => {},
        Expr::Identifier(_) => {},
        Expr::Assign(name, rhs) => {
            declare_variable(builder, variables, name.as_str());
            let ghost met = declaring(builder@, variables@);
            declare_variables_in_stmt(builder, variables, rhs);
            proof {
                lemma_keeps_on(start, met, declaring(builder@, variables@));
            }
        },
        Expr::Add(lhs, rhs) | Expr::Sub(lhs, rhs) | Expr::Mul(lhs, rhs) | Expr::Div(lhs, rhs) => {
            declare_variables_in_stmt(builder, variables, lhs);
            let ghost half = declaring(builder@, variables@);
            declare_variables_in_stmt(builder, variables, rhs);
            proof {
                lemma_keeps_on(start, half, declaring(builder@, variables@));
            }
        },
        Expr::Eq(lhs, rhs) | Expr::Ne(lhs, rhs) | Expr::Lt(lhs, rhs) | Expr::Le(lhs, rhs) | Expr::Gt(
            lhs,
            rhs,
        ) | Expr::Ge(lhs, rhs) => {
            declare_variables_in_stmt(builder, variables, lhs);
            let ghost half = declaring(builder@, variables@);
            declare_variables_in_stmt(builder, variables, rhs);
            proof {
                lemma_keeps_on(start, half, declaring(builder@, variables@));
            }
        },
        Expr::IfElse(condition, then_body, else_body) => {
            declare_variables_in_stmt(builder, variables, condition);
            let ghost tested = declaring(builder@, variables@);
            declare_variables_in_stmts(builder, variables, then_body);
            let ghost half = declaring(builder@, variables@);
            declare_variables_in_stmts(builder, variables, else_body);
            proof {
                lemma_keeps_on(start, tested, half);
                lemma_keeps_on(start, half, declaring(builder@, variables@));
            }
        },
        Expr::WhileLoop(condition, body) => {
            declare_variables_in_stmt(builder, variables, condition);
            let ghost tested = declaring(builder@, variables@);
            declare_variables_in_stmts(builder, variables, body);
            proof {
                lemma_keeps_on(start, tested, declaring(builder@, variables@));
            }
        },
        Expr::Call(_, args) => {
            declare_variables_in_stmts(builder, variables, args);
        },
    }
    proof {
        lemma_scan_knows(*expr, start);
    }
}

/// The pass over a sequence of expressions, in order.
pub fn declare_variables_in_stmts(
    builder: &mut FunctionBuilder,
    variables: &mut VariableTable,
    stmts: &Vec<Expr>,
)
    requires
        old(builder).wf(),
        old(builder)@.can_emit(),
        old(variables).wf(),
        in_step(old(builder)@, old(variables)@),
    ensures
        final(builder).wf(),
        declaring(final(builder)@, final(variables)@) == scan_stmts(
            stmts@,
            0,
            declaring(old(builder)@, old(variables)@),
        ),
        keeps(
            declaring(old(builder)@, old(variables)@),
            declaring(final(builder)@, final(variables)@),
        ),
        targets_known_from(stmts@, 0, final(variables)@),
    decreases stmts, 1nat,
{
    let ghost start = declaring(builder@, variables@);
    proof {
        lemma_scan_knows_from(stmts@, 0, start);
    }
    let mut i: usize = 0;
    while i < stmts.len()
        invariant
            i <= stmts.len(),
            builder.wf(),
            builder@.can_emit(),
            variables.wf(),
            in_step(builder@, variables@),
            keeps(start, declaring(builder@, variables@)),
            scan_stmts(stmts@, 0, start) == scan_stmts(
                stmts@,
                i as int,
                declaring(builder@, variables@),
            ),
        decreases stmts.len() - i,
    {
        let ghost before = declaring(builder@, variables@);
        declare_variables_in_stmt(builder, variables, &stmts[i]);
        proof {
            start.builder.lemma_advances_trans(before.builder, builder@);
        }
        i = i + 1;
    }
}

/// Fills the table for one function: binds each parameter to the entry
/// block's parameter at its position, binds the result's name to zero, and
/// declares the target of every assignment in the statements, at any depth.
/// The table then holds the parameters, the name of the result and every
/// name that is assigned to, and no other name.
pub fn declare_variables(
    builder: &mut FunctionBuilder,
    params: &Vec<String>,
    the_return: &str,
    stmts: &Vec<Expr>,
    entry_block: Block,
) -> (variables: VariableTable)
    requires
        old(builder).wf(),
        old(builder)@.can_emit(),
        old(builder)@.has_block(entry_block),
        old(builder)@.fit(
            old(builder)@.block(entry_block).params,
            integers(params@.len()),
        ),
        old(builder)@.variables == Map::<Variable, Type>::empty(),
    ensures
        final(builder).wf(),
        variables.wf(),
        declaring(final(builder)@, variables@) == declare_all(
            old(builder)@,
            texts(params@),
            the_return@,
            stmts@,
            entry_block,
        ),
        keeps(
            declaring(old(builder)@, Seq::empty()),
            declaring(final(builder)@, variables@),
        ),
        lookup(variables@, the_return@) is Some,
        targets_known_from(stmts@, 0, variables@),
        forall|name: Seq<char>|
            (#[trigger] lookup(variables@, name)) is Some <==> (texts(params@).contains(name)
                || name == the_return@ || occurs_from(stmts@, 0, assignment_to(name))),
{
    let mut variables = VariableTable::new();
    let ghost start = declaring(builder@, variables@);
    let ghost entry_params = builder@.block(entry_block).params;
    let ghost names = texts(params@);
    assert(integer_variables(0) =~= Map::<Variable, Type>::empty());
    let mut i: usize = 0;
    while i < params.len()
        invariant
            i <= params.len(),
            names == texts(params@),
            builder.wf(),
            builder@.can_emit(),
            variables.wf(),
            in_step(builder@, variables@),
            keeps(start, declaring(builder@, variables@)),
            start.builder.has_block(entry_block),
            entry_params == start.builder.block(entry_block).params,
            start.builder.fit(entry_params, integers(params@.len())),
            builder@.block(entry_block).params == entry_params,
            bind_params(names, 0, start, entry_params) == bind_params(
                names,
                i as int,
                declaring(builder@, variables@),
                entry_params,
            ),
        decreases params.len() - i,
    {
        let ghost before = declaring(builder@, variables@);
        let val = builder.block_params(entry_block)[i];
        let var = declare_variable(builder, &mut variables, params[i].as_str());
        let ghost met = declaring(builder@, variables@);
        assert(start.builder.has_value(val) && start.builder.value_type(val) == Type::I32);
        builder.def_var(var, val);
        proof {
            assert(names[i as int] == params@[i as int]@);
            before.builder.lemma_advances_trans(met.builder, builder@);
            start.builder.lemma_advances_trans(before.builder, builder@);
        }
        i = i + 1;
    }
    let ghost bound = declaring(builder@, variables@);
    let zero = builder.ins_iconst(0);
    let ghost zeroed = builder@;
    let return_variable = declare_variable(builder, &mut variables, the_return);
    let ghost met = builder@;
    builder.def_var(return_variable, zero);
    let ghost result_bound = declaring(builder@, variables@);
    proof {
        bound.builder.lemma_advances_trans(zeroed, met);
        bound.builder.lemma_advances_trans(met, builder@);
        start.builder.lemma_advances_trans(bound.builder, builder@);
        assert(result_bound == bind_result(the_return@, bound));
    }
    declare_variables_in_stmts(builder, &mut variables, stmts);
    proof {
        start.builder.lemma_advances_trans(result_bound.builder, builder@);
        let i = choose|i: int| at(result_bound.table, the_return@, i);
        assert(at(variables@, the_return@, i));
        law_table_holds_what_is_introduced(
            old(builder)@,
            names,
            the_return@,
            stmts@,
            entry_block,
        );
    }
    variables
}

} // verus!
