//! The test file format: one line for each query, with its source, its
//! target and the cost that is expected, where a negative cost stands for
//! "no path".

use crate::fmi_reader::ParseError;
use crate::text::Lines;
use crate::text::has_line;
use crate::text::line;
use crate::text::number_at;
use crate::text::read_number_at;
use crate::text::read_signed_number_at;
use crate::text::signed_number_at;
use vstd::prelude::*;

verus! {

/// A query with the cost that it should find.
#[derive(Debug, Clone, Copy, PartialEq, Eq, Structural)]
pub struct TestRoute {
    pub source: u32,
    pub target: u32,
    pub cost: i32,
}

/// The test case that a line describes.
pub open spec fn test_route_of(l: Seq<u8>) -> Option<TestRoute> {
    match (number_at(l, 0), number_at(l, 1), signed_number_at(l, 2)) {
        (Some(source), Some(target), Some(cost)) => Some(TestRoute { source, target, cost }),
        _ => None,
    }
}

/// Each of `routes` is what the line of its place in the text describes.
pub open spec fn describes_lines(s: Seq<u8>, routes: Seq<TestRoute>) -> bool {
    forall|k: int|
        0 <= k < routes.len() ==> has_line(s, k as nat) && test_route_of(line(s, k as nat))
            == Some(#[trigger] routes[k])
}

/// The test case that the line describes.
pub fn read_test_route(l: &[u8]) -> (route: Option<TestRoute>)
    ensures
        route == test_route_of(l@),
{
    let source = match read_number_at(l, 0) {
        Some(v) => v,
        None => {
            return None;
        },
    };
    let target = match read_number_at(l, 1) {
        Some(v) => v,
        None => {
            return None;
        },
    };
    let cost = match read_signed_number_at(l, 2) {
        Some(v) => v,
        None => {
            return None;
        },
    };
    Some(TestRoute { source, target, cost })
}

/// The test cases of a test file, one for each of its lines; or the first
/// line that does not describe one.
pub fn get_test_cases(text: &[u8]) -> (cases: Result<Vec<TestRoute>, ParseError>)
    ensures
        match cases {
            Ok(routes) => !has_line(text@, routes@.len()) && describes_lines(text@, routes@),
            Err(error) => has_line(text@, error.line as nat) && test_route_of(
                line(text@, error.line as nat),
            ) is None && exists|routes: Seq<TestRoute>|
                routes.len() == error.line && #[trigger] describes_lines(text@, routes),
        },
{
    let ghost s = text@;
    let mut lines = Lines::new(text);
    let mut routes: Vec<TestRoute> = Vec::new();
    loop
        invariant
            s == text@,
            lines.wf(),
            lines.text() == s,
            lines.count() == routes@.len(),
            describes_lines(s, routes@),
        decreases s.len() - routes@.len(),
    {
        let number = lines.line_number();
        let ghost at = lines.count();
        match lines.next_line() {
            None => {
                assert(!has_line(s, at));
                assert(at == routes@.len());
                return Ok(routes);
            },
            Some(l) => {
                proof {
                    crate::text::lemma_line_start_grows(s, at);
                    assert(has_line(s, at) && l@ == line(s, at));
                    assert(number == at);
                }
                match read_test_route(l) {
                    None => {
                        assert(test_route_of(line(s, number as nat)) is None);
                        assert(routes@.len() == number && describes_lines(s, routes@));
                        return Err(ParseError { line: number });
                    },
                    Some(route) => {
                        let ghost before = routes@;
                        routes.push(route);
                        proof {
                            assert(before.len() == at);
                            assert forall|k: int| 0 <= k < routes@.len() implies has_line(
                                s,
                                k as nat,
                            ) && test_route_of(line(s, k as nat))
                                == Some(#[trigger] routes@[k]) by {
                                if k < before.len() {
                                    assert(routes@[k] == before[k]);
                                } else {
                                    assert(k as nat == at);
                                }
                            }
                        }
                    },
                }
            },
        }
    }
}

} // verus!
