//! Structural errors: what makes a program unfit for the analysis.

use crate::env::Point;
use vstd::prelude::*;
use vstd::string::StrSliceExecFns;

verus! {

#[derive(Copy, Clone, Debug, PartialEq, Eq, Structural)]
pub enum StructuralError {
    /// A block name (a successor, or the entry) that no block bears.
    UndeclaredBlock,
    /// A field that the structure does not declare.
    UndeclaredField,
    /// A structure name without a declaration.
    UndeclaredStruct,
    /// A variable without a declaration.
    UndeclaredVariable,
    /// A region name without a declaration.
    UndeclaredRegion,
    /// Two types that cannot be related, a parameter of the wrong kind, or a
    /// projection that the type of its base does not offer.
    TypeMismatch,
    /// A structure applied to the wrong number of parameters.
    WrongArity,
    /// A bound type or region where all should have been substituted.
    UnexpectedBound,
    /// A constraint that is more than one outlives relation.
    UnsupportedConstraint,
    /// Two loop heads that one node reaches by back edges do not dominate
    /// one another.
    Irreducible,
    /// The bit sets that the program needs exceed the address space.
    TooLarge,
}

/// `needle` occurs in `hay` as a run of consecutive characters.
pub open spec fn is_substring(needle: Seq<char>, hay: Seq<char>) -> bool {
    exists|i: int|
        0 <= i && i + needle.len() <= hay.len() && #[trigger] hay.subrange(i, i + needle.len()) == needle
}

/// Whether `needle` occurs in `hay`.
pub fn contains_text(hay: &str, needle: &str) -> (r: bool)
    ensures
        r == is_substring(needle@, hay@),
{
    let n = hay.unicode_len();
    let m = needle.unicode_len();
    if m > n {
        return false;
    }
    let mut i: usize = 0;
    while i <= n - m
        invariant
            n == hay@.len(),
            m == needle@.len(),
            m <= n,
            i <= n - m + 1,
            forall|j: int| 0 <= j < i ==> #[trigger] hay@.subrange(j, j + m) != needle@,
        decreases n - m + 1 - i,
    {
        let mut k: usize = 0;
        let mut same = true;
        while k < m && same
            invariant
                n == hay@.len(),
                m == needle@.len(),
                i + m <= n,
                k <= m,
                same ==> forall|q: int| 0 <= q < k ==> hay@[i + q] == needle@[q],
                !same ==> k < m && hay@[i + k] != needle@[k as int],
            decreases m - k + (if same { 1int } else { 0int }),
        {
            if hay.get_char(i + k) != needle.get_char(k) {
                same = false;
            } else {
                k += 1;
            }
        }
        if same {
            proof {
                assert(hay@.subrange(i as int, i + m) =~= needle@);
            }
            return true;
        }
        proof {
            assert(hay@.subrange(i as int, i + m)[k as int] == hay@[i + k]);
        }
        i += 1;
    }
    proof {
        assert forall|j: int| 0 <= j && j + needle@.len() <= hay@.len() implies #[trigger] hay@.subrange(
            j,
            j + needle@.len(),
        ) != needle@ by {}
    }
    false
}

/// An error at a point, with the text of its diagnostic.
#[derive(Debug)]
pub struct ReportedError {
    pub point: Point,
    pub message: String,
}

/// What a reported error, or an expectation, says.
pub type Report = (Point, Seq<char>);

/// How the reported errors stand against the expected ones.
pub ghost enum Reconciled {
    /// Every reported error was expected, and every expectation was met.
    Clean,
    /// The reported error with this index was not expected at its point,
    /// or its text does not contain the text that was expected there.
    Unmatched(int),
    /// No error was reported at this point, but one was expected.
    Missing(Point),
}

/// Index of the first expectation for the point `p`.
pub open spec fn expectation_at(expected: Seq<Report>, p: Point, from: int) -> Option<int>
    decreases expected.len() - from,
{
    if from < 0 || from >= expected.len() {
        None
    } else if expected[from].0 == p {
        Some(from)
    } else {
        expectation_at(expected, p, from + 1)
    }
}

/// Holds the first `count` reported errors, from the last back to the
/// first, against the expectations. An error meets the expectation for its
/// point where its text contains the expected text; an expectation is used
/// up by the first error at its point, whether met or not.
pub open spec fn reconcile(reported: Seq<Report>, expected: Seq<Report>, count: int) -> Reconciled
    decreases count,
{
    if count <= 0 || count > reported.len() {
        if expected.len() == 0 {
            Reconciled::Clean
        } else {
            Reconciled::Missing(expected[0].0)
        }
    } else {
        let error = reported[count - 1];
        match expectation_at(expected, error.0, 0) {
            None => Reconciled::Unmatched(count - 1),
            Some(i) => if is_substring(expected[i].1, error.1) {
                reconcile(reported, expected.remove(i), count - 1)
            } else {
                Reconciled::Unmatched(count - 1)
            },
        }
    }
}

pub struct ErrorReporting {
    reported_errors: Vec<ReportedError>,
    expected_errors: Vec<(Point, String)>,
}

impl ErrorReporting {
    /// The reported errors, in the order in which they were reported.
    pub closed spec fn reported(&self) -> Seq<Report> {
        Seq::new(
            self.reported_errors@.len(),
            |i: int| (self.reported_errors@[i].point, self.reported_errors@[i].message@),
        )
    }

    /// The expectations, in the order in which they were made.
    pub closed spec fn expected(&self) -> Seq<Report> {
        Seq::new(
            self.expected_errors@.len(),
            |i: int| (self.expected_errors@[i].0, self.expected_errors@[i].1@),
        )
    }

    pub fn new() -> (r: Self)
        ensures
            r.reported().len() == 0,
            r.expected().len() == 0,
    {
        ErrorReporting { expected_errors: Vec::new(), reported_errors: Vec::new() }
    }

    pub fn report_error(&mut self, point: Point, message: String)
        ensures
            final(self).reported() == old(self).reported().push((point, message@)),
            final(self).expected() == old(self).expected(),
    {
        self.reported_errors.push(ReportedError { point, message });
        proof {
            assert(final(self).reported() =~= old(self).reported().push((point, message@)));
        }
    }

    /// Whether an error is expected at `point`.
    pub fn is_expected(&self, point: Point) -> (r: bool)
        ensures
            r == expectation_at(self.expected(), point, 0) is Some,
    {
        self.find_expected(point).is_some()
    }

    fn find_expected(&self, point: Point) -> (r: Option<usize>)
        ensures
            match r {
                Some(i) => expectation_at(self.expected(), point, 0) == Some(i as int) && i
                    < self.expected_errors@.len(),
                None => expectation_at(self.expected(), point, 0) is None,
            },
    {
        let mut i: usize = 0;
        while i < self.expected_errors.len()
            invariant
                i <= self.expected_errors@.len(),
                expectation_at(self.expected(), point, 0) == expectation_at(self.expected(), point, i as int),
            decreases self.expected_errors@.len() - i,
        {
            if self.expected_errors[i].0 == point {
                return Some(i);
            }
            i += 1;
        }
        None
    }

    /// Expects an error at `point` whose text contains `message`. No error
    /// may be expected at that point yet.
    pub fn expect_error(&mut self, point: Point, message: &str)
        requires
            expectation_at(old(self).expected(), point, 0) is None,
        ensures
            final(self).expected() == old(self).expected().push((point, message@)),
            final(self).reported() == old(self).reported(),
    {
        self.expected_errors.push((point, message.to_owned()));
        proof {
            assert(final(self).expected() =~= old(self).expected().push((point, message@)));
        }
    }

    /// Holds the reported errors against the expected ones: `Ok` where all
    /// agree; else the first reported error, from the last back, that was
    /// not expected at its point or does not contain the expected text; else
    /// an error at the first point where one was expected and none was
    /// reported.
    pub fn reconcile_errors(&mut self) -> (r: Result<(), ReportedError>)
        ensures
            match reconcile(old(self).reported(), old(self).expected(), old(self).reported().len() as int) {
                Reconciled::Clean => r is Ok,
                Reconciled::Unmatched(i) => r matches Err(e) && 0 <= i < old(self).reported().len()
                    && (e.point, e.message@) == old(self).reported()[i],
                Reconciled::Missing(p) => r matches Err(e) && e.point == p && e.message@
                    == "no error reported on this point, but we expected one"@,
            },
    {
        let ghost reported = self.reported();
        while self.reported_errors.len() > 0
            invariant
                self.reported_errors@.len() <= reported.len(),
                forall|i: int| 0 <= i < self.reported_errors@.len() ==> self.reported()[i] == reported[i],
                reported == old(self).reported(),
                reconcile(reported, old(self).expected(), reported.len() as int) == reconcile(
                    reported,
                    self.expected(),
                    self.reported_errors@.len() as int,
                ),
            decreases self.reported_errors@.len(),
        {
            let ghost before = *self;
            let count = self.reported_errors.len();
            let reported_error = self.reported_errors.pop().unwrap();
            proof {
                assert((reported_error.point, reported_error.message@) == before.reported()[count - 1]);
                assert forall|i: int| 0 <= i < self.reported_errors@.len() implies self.reported()[i]
                    == reported[i] by {
                    assert(self.reported()[i] == before.reported()[i]);
                }
            }
            match self.find_expected(reported_error.point) {
                Some(i) => {
                    let ghost expected_before = self.expected();
                    let (_, expected_message) = self.expected_errors.remove(i);
                    proof {
                        assert(self.expected() =~= expected_before.remove(i as int));
                        assert(expected_message@ == expected_before[i as int].1);
                    }
                    if !contains_text(reported_error.message.as_str(), expected_message.as_str()) {
                        return Err(reported_error);
                    }
                },
                None => {
                    return Err(reported_error);
                },
            }
        }
        if self.expected_errors.len() > 0 {
            let expected_point = self.expected_errors[0].0;
            return Err(
                ReportedError {
                    point: expected_point,
                    message: "no error reported on this point, but we expected one".to_owned(),
                },
            );
        }
        Ok(())
    }
}

} // verus!
