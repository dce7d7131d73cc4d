use vstd::prelude::*;

verus! {

/// What went wrong.
#[derive(Clone, Copy, Debug, PartialEq, Eq, Structural)]
pub enum Kind {
    /// An opcode could not be decoded.
    Invalid,
    /// Fewer bytes remained than an instruction needs.
    Truncated,
    /// A control transfer's destination is not statically known.
    UnresolvedTarget,
    /// An address lies outside the supplied byte range.
    OutOfRange,
    /// A bitness other than 32 or 64, or a region that does not fit the address space.
    Bad,
}

/// An error with a chain of causes, nearest cause first.
#[derive(Debug)]
pub struct Error {
    pub kind: Kind,
    pub causes: Vec<Kind>,
}

pub type Result<T> = core::result::Result<T, Error>;

pub open spec fn kind_text(k: Kind) -> Seq<char> {
    match k {
        Kind::Invalid => "invalid instruction"@,
        Kind::Truncated => "truncated instruction"@,
        Kind::UnresolvedTarget => "unresolved target"@,
        Kind::OutOfRange => "address out of range"@,
        Kind::Bad => "bad"@,
    }
}

impl Error {
    /// An error of the given kind, without a cause.
    pub fn new(kind: Kind) -> (r: Error)
        ensures
            r.kind == kind,
            r.causes@ == Seq::<Kind>::empty(),
    {
        Error { kind, causes: Vec::new() }
    }

    /// This error with `cause` as its cause; the cause's own chain follows it.
    pub fn with(self, cause: Error) -> (r: Error)
        ensures
            r.kind == self.kind,
            r.causes@ == seq![cause.kind] + cause.causes@,
    {
        let mut causes: Vec<Kind> = Vec::new();
        causes.push(cause.kind);
        let mut i: usize = 0;
        while i < cause.causes.len()
            invariant
                i <= cause.causes@.len(),
                causes@ == seq![cause.kind] + cause.causes@.subrange(0, i as int),
            decreases cause.causes@.len() - i,
        {
            causes.push(cause.causes[i]);
            i = i + 1;
            assert(causes@ =~= seq![cause.kind] + cause.causes@.subrange(0, i as int));
        }
        assert(cause.causes@.subrange(0, i as int) =~= cause.causes@);
        Error { kind: self.kind, causes }
    }

    /// Position in the cause chain of the first cause of the given kind.
    pub fn find_source(&self, kind: Kind) -> (r: Option<usize>)
        ensures
            r matches Some(i) ==> i < self.causes@.len() && self.causes@[i as int] == kind
                && forall|j: int| 0 <= j < i ==> self.causes@[j] != kind,
            r is None ==> forall|j: int| 0 <= j < self.causes@.len() ==> self.causes@[j] != kind,
    {
        let mut i: usize = 0;
        while i < self.causes.len()
            invariant
                i <= self.causes@.len(),
                forall|j: int| 0 <= j < i ==> self.causes@[j] != kind,
            decreases self.causes@.len() - i,
        {
            if self.causes[i] == kind {
                return Some(i);
            }
            i = i + 1;
        }
        None
    }

    /// A short text for the error's kind.
    pub fn description(&self) -> (r: &'static str)
        ensures
            r@ == kind_text(self.kind),
    {
        match self.kind {
            Kind::Invalid => "invalid instruction",
            Kind::Truncated => "truncated instruction",
            Kind::UnresolvedTarget => "unresolved target",
            Kind::OutOfRange => "address out of range",
            Kind::Bad => "bad",
        }
    }
}

} // verus!
