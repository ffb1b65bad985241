//! Variables and their layering.
//!
//! A variable list is read from its first entry to its last: where a name
//! occurs more than once, the last entry gives its value. Layers of variables
//! are chained from the lowest precedence to the highest, so that a later
//! layer overrides an earlier one. Which layers take part, and in which order,
//! depends on what is being evaluated; [`precedence`] is that table.

use vstd::prelude::*;

verus! {

/// A named value.
#[derive(Debug, PartialEq, Eq)]
pub struct Variable {
    pub name: String,
    pub value: String,
}

impl Clone for Variable {
    fn clone(&self) -> (r: Self)
        ensures
            r == *self,
    {
        Variable { name: self.name.clone(), value: self.value.clone() }
    }
}

impl Variable {
    /// The variable `name` with the value `value`.
    pub fn new(name: String, value: String) -> (r: Self)
        ensures
            r.name == name,
            r.value == value,
    {
        Variable { name, value }
    }
}

/// The mapping that a variable list denotes: each name with the value of its
/// last entry.
pub open spec fn bindings(variables: Seq<Variable>) -> Map<Seq<char>, Seq<char>>
    decreases variables.len(),
{
    if variables.len() == 0 {
        Map::empty()
    } else {
        bindings(variables.drop_last()).insert(variables.last().name@, variables.last().value@)
    }
}

/// The layers one after the other, lowest precedence first.
pub open spec fn chain(layers: Seq<Seq<Variable>>) -> Seq<Variable>
    decreases layers.len(),
{
    if layers.len() == 0 {
        Seq::empty()
    } else {
        chain(layers.drop_last()) + layers.last()
    }
}

/// Chaining two lists lets the second override the first.
pub proof fn lemma_bindings_concat(lower: Seq<Variable>, higher: Seq<Variable>)
    ensures
        bindings(lower + higher) == bindings(lower).union_prefer_right(bindings(higher)),
    decreases higher.len(),
{
    if higher.len() == 0 {
        assert(lower + higher =~= lower);
        assert(bindings(lower).union_prefer_right(bindings(higher)) =~= bindings(lower));
    } else {
        let both = lower + higher;
        assert(both.drop_last() =~= lower + higher.drop_last());
        assert(both.last() == higher.last());
        lemma_bindings_concat(lower, higher.drop_last());
        assert(bindings(both) =~= bindings(lower).union_prefer_right(bindings(higher)));
    }
}

/// A later layer's value for a name overrides an earlier layer's: a name
/// that `higher` binds has the value `higher` gives it, whatever `lower`
/// says, and any other name keeps what `lower` says of it.
pub proof fn lemma_later_layer_wins(lower: Seq<Variable>, higher: Seq<Variable>, name: Seq<char>)
    ensures
        bindings(higher).contains_key(name) ==> bindings(lower + higher).contains_key(name)
            && bindings(lower + higher)[name] == bindings(higher)[name],
        !bindings(higher).contains_key(name) ==> (bindings(lower + higher).contains_key(name)
            <==> bindings(lower).contains_key(name)),
        !bindings(higher).contains_key(name) && bindings(lower).contains_key(name) ==> bindings(
            lower + higher,
        )[name] == bindings(lower)[name],
{
    lemma_bindings_concat(lower, higher);
}

/// Of layers chained from the lowest precedence to the highest, the highest
/// that binds a name gives its value: where layer `k` binds `name` and no
/// layer above it does, `name` has the value that layer `k` gives it.
pub proof fn lemma_highest_layer_wins(layers: Seq<Seq<Variable>>, k: int, name: Seq<char>)
    requires
        0 <= k < layers.len(),
        bindings(layers[k]).contains_key(name),
        forall|j: int| k < j < layers.len() ==> !bindings(#[trigger] layers[j]).contains_key(name),
    ensures
        bindings(chain(layers)).contains_key(name),
        bindings(chain(layers))[name] == bindings(layers[k])[name],
    decreases layers.len(),
{
    let below = layers.drop_last();
    lemma_later_layer_wins(chain(below), layers.last(), name);
    if k < layers.len() - 1 {
        assert(!bindings(layers[layers.len() - 1]).contains_key(name));
        assert(below[k] == layers[k]);
        assert forall|j: int| k < j < below.len() implies !bindings(#[trigger] below[j]).contains_key(
            name,
        ) by {
            assert(below[j] == layers[j]);
        }
        lemma_highest_layer_wins(below, k, name);
    }
}

/// A name is bound exactly when some entry carries it.
pub proof fn lemma_bindings_domain(variables: Seq<Variable>, name: Seq<char>)
    ensures
        bindings(variables).contains_key(name) <==> exists|i: int|
            0 <= i < variables.len() && (#[trigger] variables[i]).name@ == name,
    decreases variables.len(),
{
    if variables.len() > 0 {
        let front = variables.drop_last();
        lemma_bindings_domain(front, name);
        if bindings(variables).contains_key(name) {
            if variables.last().name@ == name {
                assert(variables[variables.len() - 1].name@ == name);
            } else {
                let i = choose|i: int| 0 <= i < front.len() && (#[trigger] front[i]).name@ == name;
                assert(variables[i].name@ == name);
            }
        }
        if exists|i: int| 0 <= i < variables.len() && (#[trigger] variables[i]).name@ == name {
            let i = choose|i: int|
                0 <= i < variables.len() && (#[trigger] variables[i]).name@ == name;
            if i < front.len() {
                assert(front[i].name@ == name);
            }
        }
    }
}

/// The value of a name is that of the last entry that carries it.
pub proof fn lemma_bindings_last(variables: Seq<Variable>, i: int)
    requires
        0 <= i < variables.len(),
        forall|j: int| i < j < variables.len() ==> (#[trigger] variables[j]).name@
            != variables[i].name@,
    ensures
        bindings(variables).contains_key(variables[i].name@),
        bindings(variables)[variables[i].name@] == variables[i].value@,
    decreases variables.len(),
{
    if i < variables.len() - 1 {
        let front = variables.drop_last();
        assert(variables[variables.len() - 1].name@ != variables[i].name@);
        assert forall|j: int| i < j < front.len() implies (#[trigger] front[j]).name@
            != front[i].name@ by {
            assert(front[j] == variables[j]);
        }
        lemma_bindings_last(front, i);
    }
}

/// Where a variable comes from.
#[derive(Debug, Clone, Copy, PartialEq, Eq, Structural)]
pub enum Scope {
    /// The process environment, after filtering.
    Environment,
    /// The workspace configuration.
    Workspace,
    /// The job in hand.
    Job,
    /// The step in hand.
    Step,
    /// The package in hand.
    Package,
    /// The command line.
    CommandLine,
}

/// What a variable list is assembled for.
#[derive(Debug, Clone, Copy, PartialEq, Eq, Structural)]
pub enum Purpose {
    /// Deciding whether a job runs for a package.
    JobCondition,
    /// Deciding whether a failed job lets the run go on.
    JobContinueOnError,
    /// Deciding whether a step runs for a package.
    StepCondition,
    /// Deciding whether a failed step lets the job go on; `per_package` says
    /// whether the step is declared per package.
    StepContinueOnError { per_package: bool },
    /// The variables handed to the step's process; `per_package` says whether
    /// the step is declared per package.
    StepExecution { per_package: bool },
}

/// The layers that take part for each purpose, lowest precedence first.
pub open spec fn precedence(purpose: Purpose) -> Seq<Scope> {
    match purpose {
        Purpose::JobCondition => seq![
            Scope::Environment,
            Scope::Workspace,
            Scope::Package,
            Scope::CommandLine,
        ],
        Purpose::JobContinueOnError => seq![
            Scope::Environment,
            Scope::Workspace,
            Scope::CommandLine,
        ],
        Purpose::StepCondition => seq![
            Scope::Environment,
            Scope::Workspace,
            Scope::Job,
            Scope::Package,
            Scope::CommandLine,
        ],
        Purpose::StepContinueOnError { per_package } => if per_package {
            seq![
                Scope::Environment,
                Scope::Workspace,
                Scope::Job,
                Scope::Package,
                Scope::CommandLine,
            ]
        } else {
            seq![Scope::Environment, Scope::Workspace, Scope::Job, Scope::CommandLine]
        },
        Purpose::StepExecution { per_package } => if per_package {
            seq![
                Scope::Environment,
                Scope::Workspace,
                Scope::Job,
                Scope::Step,
                Scope::Package,
                Scope::CommandLine,
            ]
        } else {
            seq![
                Scope::Environment,
                Scope::Workspace,
                Scope::Job,
                Scope::Step,
                Scope::CommandLine,
            ]
        },
    }
}

/// Whatever is evaluated, the environment is the lowest layer and the
/// command line the highest.
pub proof fn lemma_command_line_is_highest(purpose: Purpose)
    ensures
        precedence(purpose).len() >= 2,
        precedence(purpose).first() == Scope::Environment,
        precedence(purpose).last() == Scope::CommandLine,
{
}

/// The variable lists of one evaluation, by scope. A scope that does not
/// apply is an empty list.
pub struct Layers {
    pub environment: Seq<Variable>,
    pub workspace: Seq<Variable>,
    pub job: Seq<Variable>,
    pub step: Seq<Variable>,
    pub package: Seq<Variable>,
    pub command_line: Seq<Variable>,
}

impl Layers {
    /// The list of one scope.
    pub open spec fn layer(self, scope: Scope) -> Seq<Variable> {
        match scope {
            Scope::Environment => self.environment,
            Scope::Workspace => self.workspace,
            Scope::Job => self.job,
            Scope::Step => self.step,
            Scope::Package => self.package,
            Scope::CommandLine => self.command_line,
        }
    }

    /// The lists of the scopes in `order`, one after the other.
    pub open spec fn layers(self, order: Seq<Scope>) -> Seq<Seq<Variable>> {
        order.map_values(|scope: Scope| self.layer(scope))
    }

    /// The variables for `purpose`: the lists of the scopes that take part,
    /// chained from the lowest precedence to the highest.
    pub open spec fn assembled(self, purpose: Purpose) -> Seq<Variable> {
        chain(self.layers(precedence(purpose)))
    }
}

/// Whatever is evaluated, a variable given on the command line has the value
/// given there.
pub proof fn lemma_command_line_wins(layers: Layers, purpose: Purpose, name: Seq<char>)
    requires
        bindings(layers.command_line).contains_key(name),
    ensures
        bindings(layers.assembled(purpose)).contains_key(name),
        bindings(layers.assembled(purpose))[name] == bindings(layers.command_line)[name],
{
    let order = precedence(purpose);
    let lists = layers.layers(order);
    lemma_command_line_is_highest(purpose);
    assert(lists[lists.len() - 1] == layers.layer(order[order.len() - 1]));
    lemma_highest_layer_wins(lists, lists.len() - 1, name);
}

/// The variable lists of one evaluation, by scope, as they are held.
pub struct Sources<'a> {
    pub environment: &'a [Variable],
    pub workspace: &'a [Variable],
    pub job: &'a [Variable],
    pub step: &'a [Variable],
    pub package: &'a [Variable],
    pub command_line: &'a [Variable],
}

impl<'a> View for Sources<'a> {
    type V = Layers;

    open spec fn view(&self) -> Layers {
        Layers {
            environment: self.environment@,
            workspace: self.workspace@,
            job: self.job@,
            step: self.step@,
            package: self.package@,
            command_line: self.command_line@,
        }
    }
}

impl<'a> Sources<'a> {
    /// The list of one scope.
    pub fn get(&self, scope: Scope) -> (r: &'a [Variable])
        ensures
            r@ == self@.layer(scope),
    {
        match scope {
            Scope::Environment => self.environment,
            Scope::Workspace => self.workspace,
            Scope::Job => self.job,
            Scope::Step => self.step,
            Scope::Package => self.package,
            Scope::CommandLine => self.command_line,
        }
    }
}

/// The scopes that take part for `purpose`, lowest precedence first.
pub fn precedence_of(purpose: Purpose) -> (order: Vec<Scope>)
    ensures
        order@ == precedence(purpose),
{
    let mut order: Vec<Scope> = Vec::new();
    order.push(Scope::Environment);
    order.push(Scope::Workspace);
    match purpose {
        Purpose::JobCondition => {
            order.push(Scope::Package);
        },
        Purpose::JobContinueOnError => {},
        Purpose::StepCondition => {
            order.push(Scope::Job);
            order.push(Scope::Package);
        },
        Purpose::StepContinueOnError { per_package } => {
            order.push(Scope::Job);
            if per_package {
                order.push(Scope::Package);
            }
        },
        Purpose::StepExecution { per_package } => {
            order.push(Scope::Job);
            order.push(Scope::Step);
            if per_package {
                order.push(Scope::Package);
            }
        },
    }
    order.push(Scope::CommandLine);
    assert(order@ =~= precedence(purpose));
    order
}

/// The variables for `purpose`: the lists of the scopes that take part,
/// chained from the lowest precedence to the highest.
pub fn assemble(purpose: Purpose, sources: &Sources) -> (variables: Vec<Variable>)
    ensures
        variables@ == sources@.assembled(purpose),
{
    let order = precedence_of(purpose);
    let mut variables: Vec<Variable> = Vec::new();
    let mut i: usize = 0;
    while i < order.len()
        invariant
            order@ == precedence(purpose),
            i <= order@.len(),
            variables@ == chain(sources@.layers(order@.take(i as int))),
        decreases order@.len() - i,
    {
        let layer = sources.get(order[i]);
        let ghost before = variables@;
        let mut k: usize = 0;
        while k < layer.len()
            invariant
                k <= layer@.len(),
                variables@ == before + layer@.take(k as int),
            decreases layer@.len() - k,
        {
            variables.push(layer[k].clone());
            assert(layer@.take(k + 1) =~= layer@.take(k as int).push(layer@[k as int]));
            k += 1;
        }
        proof {
            assert(layer@.take(k as int) =~= layer@);
            let taken = sources@.layers(order@.take(i + 1));
            assert(taken.drop_last() =~= sources@.layers(order@.take(i as int)));
            assert(taken.last() == layer@);
        }
        i += 1;
    }
    assert(order@.take(i as int) =~= order@);
    variables
}

/// The position of the last entry named `name`, if there is one.
pub open spec fn place_of(variables: Seq<Variable>, name: Seq<char>) -> Option<int>
    decreases variables.len(),
{
    if variables.len() == 0 {
        None
    } else if variables.last().name@ == name {
        Some(variables.len() - 1)
    } else {
        place_of(variables.drop_last(), name)
    }
}

/// `variables` with one entry per name: each entry takes the place of the
/// entry of its name before it, or goes to the end where there is none.
pub open spec fn flattened(variables: Seq<Variable>) -> Seq<Variable>
    decreases variables.len(),
{
    if variables.len() == 0 {
        Seq::empty()
    } else {
        let before = flattened(variables.drop_last());
        match place_of(before, variables.last().name@) {
            Some(at) => before.update(at, variables.last()),
            None => before.push(variables.last()),
        }
    }
}

/// The place of a name is that of the last entry that carries it.
pub proof fn lemma_place_of(variables: Seq<Variable>, name: Seq<char>)
    ensures
        match place_of(variables, name) {
            Some(i) => 0 <= i < variables.len() && variables[i].name@ == name && forall|j: int|
                i < j < variables.len() ==> (#[trigger] variables[j]).name@ != name,
            None => forall|j: int|
                0 <= j < variables.len() ==> (#[trigger] variables[j]).name@ != name,
        },
    decreases variables.len(),
{
    if variables.len() > 0 && variables.last().name@ != name {
        let front = variables.drop_last();
        lemma_place_of(front, name);
        match place_of(front, name) {
            Some(i) => {
                assert forall|j: int| i < j < variables.len() implies (
                #[trigger] variables[j]).name@ != name by {
                    if j < front.len() {
                        assert(front[j] == variables[j]);
                    }
                }
            },
            None => {
                assert forall|j: int| 0 <= j < variables.len() implies (
                #[trigger] variables[j]).name@ != name by {
                    if j < front.len() {
                        assert(front[j] == variables[j]);
                    }
                }
            },
        }
    }
}

/// A flattened list binds what the list binds, and carries no name twice.
pub proof fn lemma_flattened(variables: Seq<Variable>)
    ensures
        bindings(flattened(variables)) == bindings(variables),
        forall|a: int, b: int|
            0 <= a < b < flattened(variables).len() ==> (#[trigger] flattened(variables)[a]).name@
                != (#[trigger] flattened(variables)[b]).name@,
    decreases variables.len(),
{
    if variables.len() > 0 {
        let before = flattened(variables.drop_last());
        let entry = variables.last();
        lemma_flattened(variables.drop_last());
        lemma_place_of(before, entry.name@);
        match place_of(before, entry.name@) {
            Some(at) => {
                lemma_bindings_replace(before, at, entry);
                let after = before.update(at, entry);
                assert forall|a: int, b: int| 0 <= a < b < after.len() implies (
                #[trigger] after[a]).name@ != (#[trigger] after[b]).name@ by {
                    assert(after[a].name@ == before[a].name@);
                    assert(after[b].name@ == before[b].name@);
                }
            },
            None => {
                let after = before.push(entry);
                assert(after.drop_last() =~= before);
                assert forall|a: int, b: int| 0 <= a < b < after.len() implies (
                #[trigger] after[a]).name@ != (#[trigger] after[b]).name@ by {
                    if b < before.len() {
                        assert(after[a] == before[a] && after[b] == before[b]);
                    } else {
                        assert(after[a] == before[a]);
                    }
                }
            },
        }
    }
}

/// The position of the last entry named `name`, if there is one.
pub fn find_last(variables: &[Variable], name: &String) -> (r: Option<usize>)
    ensures
        match r {
            Some(i) => place_of(variables@, name@) == Some(i as int),
            None => place_of(variables@, name@) is None,
        },
        match r {
            Some(i) => i < variables@.len() && variables@[i as int].name@ == name@ && forall|j: int|
                i < j < variables@.len() ==> (#[trigger] variables@[j]).name@ != name@,
            None => forall|j: int|
                0 <= j < variables@.len() ==> (#[trigger] variables@[j]).name@ != name@,
        },
{
    proof {
        lemma_place_of(variables@, name@);
    }
    let mut i: usize = variables.len();
    while i > 0
        invariant
            i <= variables@.len(),
            forall|j: int| i <= j < variables@.len() ==> (#[trigger] variables@[j]).name@ != name@,
            match place_of(variables@, name@) {
                Some(at) => 0 <= at < variables@.len() && variables@[at].name@ == name@ && forall|
                    j: int,
                |
                    at < j < variables@.len() ==> (#[trigger] variables@[j]).name@ != name@,
                None => forall|j: int|
                    0 <= j < variables@.len() ==> (#[trigger] variables@[j]).name@ != name@,
            },
        decreases i,
    {
        i -= 1;
        if variables[i].name == *name {
            return Some(i);
        }
    }
    None
}

/// The value that `variables` gives `name`.
pub fn lookup<'a>(variables: &'a [Variable], name: &String) -> (r: Option<&'a String>)
    ensures
        match r {
            Some(value) => bindings(variables@).contains_key(name@) && bindings(variables@)[name@]
                == value@,
            None => !bindings(variables@).contains_key(name@),
        },
{
    match find_last(variables, name) {
        Some(i) => {
            proof {
                lemma_bindings_last(variables@, i as int);
            }
            Some(&variables[i].value)
        },
        None => {
            proof {
                lemma_bindings_domain(variables@, name@);
            }
            None
        },
    }
}

/// One entry per name, with the value that `variables` gives it; names
/// stand where they first occur.
pub fn flatten(variables: &[Variable]) -> (flat: Vec<Variable>)
    ensures
        flat@ == flattened(variables@),
        bindings(flat@) == bindings(variables@),
        forall|i: int, j: int|
            0 <= i < j < flat@.len() ==> (#[trigger] flat@[i]).name@ != (#[trigger] flat@[j]).name@,
{
    let mut flat: Vec<Variable> = Vec::new();
    let mut i: usize = 0;
    assert(flat@ =~= flattened(variables@.take(0)));
    while i < variables.len()
        invariant
            i <= variables@.len(),
            flat@ == flattened(variables@.take(i as int)),
            bindings(flat@) == bindings(variables@.take(i as int)),
            forall|a: int, b: int|
                0 <= a < b < flat@.len() ==> (#[trigger] flat@[a]).name@ != (
                #[trigger] flat@[b]).name@,
        decreases variables@.len() - i,
    {
        let entry = &variables[i];
        let ghost before = flat@;
        proof {
            assert(variables@.take(i + 1).drop_last() =~= variables@.take(i as int));
        }
        match find_last(flat.as_slice(), &entry.name) {
            Some(at) => {
                flat.set(at, entry.clone());
                proof {
                    lemma_bindings_replace(before, at as int, *entry);
                }
            },
            None => {
                flat.push(entry.clone());
                proof {
                    assert(flat@.drop_last() =~= before);
                }
            },
        }
        i += 1;
    }
    assert(variables@.take(i as int) =~= variables@);
    flat
}

/// Replacing the only entry of a name changes that name's value and nothing
/// else.
proof fn lemma_bindings_replace(variables: Seq<Variable>, at: int, entry: Variable)
    requires
        0 <= at < variables.len(),
        variables[at].name@ == entry.name@,
        forall|a: int, b: int|
            0 <= a < b < variables.len() ==> (#[trigger] variables[a]).name@ != (
            #[trigger] variables[b]).name@,
    ensures
        bindings(variables.update(at, entry)) == bindings(variables).insert(
            entry.name@,
            entry.value@,
        ),
    decreases variables.len(),
{
    let after = variables.update(at, entry);
    let front = variables.drop_last();
    if at == variables.len() - 1 {
        assert(after.drop_last() =~= front);
        assert(bindings(after) =~= bindings(variables).insert(entry.name@, entry.value@));
    } else {
        assert(after.drop_last() =~= front.update(at, entry));
        assert(after.last() == variables.last());
        assert(variables[at].name@ != variables[variables.len() - 1].name@);
        lemma_bindings_replace(front, at, entry);
        assert(bindings(after) =~= bindings(variables).insert(entry.name@, entry.value@));
    }
}

} // verus!
