use vstd::prelude::*;

verus! {

/// How the time domains of a function's arguments are checked.
#[derive(Debug, Clone, Copy, PartialEq, Eq, Structural)]
pub enum TimeDomainCheck {
    /// The arguments must be in compatible domains.
    Compatible,
    /// The function aggregates its input within its window.
    Aggregation,
}

/// A rewrite that pushes a function down into the fields of a record.
#[derive(Debug, PartialEq, Eq)]
pub struct Pushdown {
    /// The position of the argument that is pushed down on.
    pub pushdown_on: usize,
    /// The pattern used where that argument is no record.
    pub primitive_pattern: String,
    /// The pattern used for each field of a record.
    pub record_field_pattern: String,
    /// The pattern that wraps the record assembled from the fields.
    pub record_result_pattern: String,
}

/// How a function is turned into dataflow.
#[derive(Debug, PartialEq, Eq)]
pub enum Implementation {
    /// By rewriting to a pattern.
    Pattern(String),
    /// By pushing down through records.
    Pushdown(Pushdown),
}

/// The mathematical content of an `Implementation`.
pub enum ImplementationView {
    Pattern(Seq<char>),
    Pushdown {
        pushdown_on: nat,
        primitive_pattern: Seq<char>,
        record_field_pattern: Seq<char>,
        record_result_pattern: Seq<char>,
    },
}

impl View for Implementation {
    type V = ImplementationView;

    open spec fn view(&self) -> ImplementationView {
        match self {
            Implementation::Pattern(pattern) => ImplementationView::Pattern(pattern@),
            Implementation::Pushdown(pushdown) => ImplementationView::Pushdown {
                pushdown_on: pushdown.pushdown_on as nat,
                primitive_pattern: pushdown.primitive_pattern@,
                record_field_pattern: pushdown.record_field_pattern@,
                record_result_pattern: pushdown.record_result_pattern@,
            },
        }
    }
}

impl Implementation {
    /// The implementation that rewrites to `pattern`.
    pub fn new_pattern(pattern: &str) -> (implementation: Implementation)
        ensures
            implementation@ == ImplementationView::Pattern(pattern@),
    {
        Implementation::Pattern(String::from_str(pattern))
    }
}

impl Pushdown {
    /// The pushdown on argument `pushdown_on` with the three patterns.
    pub fn new(
        pushdown_on: usize,
        primitive_pattern: String,
        record_field_pattern: String,
        record_result_pattern: String,
    ) -> (pushdown: Pushdown)
        ensures
            pushdown.pushdown_on == pushdown_on,
            pushdown.primitive_pattern@ == primitive_pattern@,
            pushdown.record_field_pattern@ == record_field_pattern@,
            pushdown.record_result_pattern@ == record_result_pattern@,
    {
        Pushdown { pushdown_on, primitive_pattern, record_field_pattern, record_result_pattern }
    }
}

/// The mathematical content of a `Function`.
pub struct FunctionView {
    pub signature: Seq<char>,
    pub dfg_signature: Option<Seq<char>>,
    pub implementation: Option<ImplementationView>,
    pub is_new: Option<ImplementationView>,
    pub time_domain_check: TimeDomainCheck,
}

/// One function of the language.
#[derive(Debug, PartialEq, Eq)]
pub struct Function {
    signature: String,
    dfg_signature: Option<String>,
    implementation: Option<Implementation>,
    is_new: Option<Implementation>,
    time_domain_check: TimeDomainCheck,
}

impl View for Function {
    type V = FunctionView;

    closed spec fn view(&self) -> FunctionView {
        FunctionView {
            signature: self.signature@,
            dfg_signature: match self.dfg_signature {
                Some(signature) => Some(signature@),
                None => None,
            },
            implementation: match self.implementation {
                Some(implementation) => Some(implementation@),
                None => None,
            },
            is_new: match self.is_new {
                Some(implementation) => Some(implementation@),
                None => None,
            },
            time_domain_check: self.time_domain_check,
        }
    }
}

impl Function {
    /// A function with the signature that users write, and nothing else yet.
    pub fn new(signature: &str) -> (function: Function)
        ensures
            function@ == (FunctionView {
                signature: signature@,
                dfg_signature: None,
                implementation: None,
                is_new: None,
                time_domain_check: TimeDomainCheck::Compatible,
            }),
    {
        Function {
            signature: String::from_str(signature),
            dfg_signature: None,
            implementation: None,
            is_new: None,
            time_domain_check: TimeDomainCheck::Compatible,
        }
    }

    /// Sets the signature that the function has in the dataflow graph.
    pub fn with_dfg_signature(self, signature: &str) -> (function: Function)
        ensures
            function@ == (FunctionView { dfg_signature: Some(signature@), ..self@ }),
    {
        let mut function = self;
        function.dfg_signature = Some(String::from_str(signature));
        function
    }

    /// Sets how the function is implemented.
    pub fn with_implementation(self, implementation: Implementation) -> (function: Function)
        ensures
            function@ == (FunctionView { implementation: Some(implementation@), ..self@ }),
    {
        let mut function = self;
        function.implementation = Some(implementation);
        function
    }

    /// Sets how it is decided whether the function's result is new.
    pub fn with_is_new(self, is_new: Implementation) -> (function: Function)
        ensures
            function@ == (FunctionView { is_new: Some(is_new@), ..self@ }),
    {
        let mut function = self;
        function.is_new = Some(is_new);
        function
    }

    /// Sets how the time domains of the arguments are checked.
    pub fn with_time_domain_check(self, check: TimeDomainCheck) -> (function: Function)
        ensures
            function@ == (FunctionView { time_domain_check: check, ..self@ }),
    {
        let mut function = self;
        function.time_domain_check = check;
        function
    }

    /// The signature that users write.
    pub fn signature(&self) -> (signature: &str)
        ensures
            signature@ == self@.signature,
    {
        self.signature.as_str()
    }

    /// The signature in the dataflow graph, if it differs.
    pub fn dfg_signature(&self) -> (signature: Option<&str>)
        ensures
            match signature {
                Some(text) => self@.dfg_signature == Some(text@),
                None => self@.dfg_signature is None,
            },
    {
        match &self.dfg_signature {
            Some(signature) => Some(signature.as_str()),
            None => None,
        }
    }

    /// How the function is implemented, if that was set.
    pub fn implementation(&self) -> (implementation: Option<&Implementation>)
        ensures
            match implementation {
                Some(found) => self@.implementation == Some(found@),
                None => self@.implementation is None,
            },
    {
        self.implementation.as_ref()
    }

    /// How it is decided whether the result is new, if that was set.
    pub fn is_new(&self) -> (is_new: Option<&Implementation>)
        ensures
            match is_new {
                Some(found) => self@.is_new == Some(found@),
                None => self@.is_new is None,
            },
    {
        self.is_new.as_ref()
    }

    /// How the time domains of the arguments are checked.
    pub fn time_domain_check(&self) -> (check: TimeDomainCheck)
        ensures
            check == self@.time_domain_check,
    {
        self.time_domain_check
    }
}

/// The functions of the language, in the order in which they were registered.
pub struct Registry {
    functions: Vec<Function>,
}

impl View for Registry {
    type V = Seq<FunctionView>;

    closed spec fn view(&self) -> Seq<FunctionView> {
        Seq::new(self.functions@.len(), |i: int| self.functions@[i]@)
    }
}

impl Registry {
    /// A registry without functions.
    pub fn new() -> (registry: Registry)
        ensures
            registry@ == Seq::<FunctionView>::empty(),
    {
        let registry = Registry { functions: Vec::new() };
        assert(registry@ =~= Seq::<FunctionView>::empty());
        registry
    }

    /// Adds `function` behind those already registered.
    pub fn register(&mut self, function: Function)
        ensures
            final(self)@ == old(self)@.push(function@),
    {
        self.functions.push(function);
        assert(self@ =~= old(self)@.push(function@));
    }

    /// The number of functions.
    pub fn len(&self) -> (n: usize)
        ensures
            n == self@.len(),
    {
        self.functions.len()
    }

    /// The function registered at position `index`.
    pub fn get(&self, index: usize) -> (function: Option<&Function>)
        ensures
            index < self@.len() ==> function is Some && function->Some_0@ == self@[index as int],
            index >= self@.len() ==> function is None,
    {
        if index < self.functions.len() {
            Some(&self.functions[index])
        } else {
            None
        }
    }
}

} // verus!
