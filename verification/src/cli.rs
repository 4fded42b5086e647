//! The command line: which of the program's jobs it asks for.

use crate::text::{digits_of, is_number, parse_u32, value};
use vstd::prelude::*;
use vstd::string::StrSliceExecFns;

verus! {

/// What the program was asked to do.
#[derive(Debug, Clone, Copy, PartialEq, Eq, Structural)]
pub enum Job {
    /// Show how the program is used.
    Help,
    /// Print detected capture devices.
    ListCameras,
    /// Print the modes of one camera, or of the default one.
    ListModes { camera: Option<u32> },
    /// Verify the models without a camera.
    SelfTest,
    /// Run, on one camera or on the default one.
    Run { camera: Option<u32> },
}

/// The value given for the camera is not a number; holds the value as given.
#[derive(Debug, PartialEq, Eq)]
pub struct NotANumber {
    pub given: String,
}

/// The position of the first of the arguments that is `flag`, if there is one.
pub open spec fn position(args: Seq<String>, flag: Seq<char>, n: int) -> Option<int>
    decreases n,
{
    if n <= 0 {
        None
    } else {
        match position(args, flag, n - 1) {
            Some(i) => Some(i),
            None => if args[n - 1]@ == flag {
                Some(n - 1)
            } else {
                None
            },
        }
    }
}

/// One of the arguments is `flag`.
pub open spec fn has(args: Seq<String>, flag: Seq<char>) -> bool {
    position(args, flag, args.len() as int) is Some
}

/// What follows the first `--camera`, if anything does.
pub open spec fn camera_value(args: Seq<String>) -> Option<Seq<char>> {
    match position(args, "--camera"@, args.len() as int) {
        Some(i) => if i + 1 < args.len() {
            Some(args[i + 1]@)
        } else {
            None
        },
        None => None,
    }
}

/// The number that a value spells, if it spells one.
pub open spec fn number(v: Option<Seq<char>>) -> Option<u32> {
    match v {
        Some(s) => if is_number(s) {
            Some(value(digits_of(s)) as u32)
        } else {
            None
        },
        None => None,
    }
}

/// Whether two texts are the same.
fn same(a: &str, b: &str) -> (eq: bool)
    ensures
        eq == (a@ == b@),
{
    let n: usize = a.unicode_len();
    if n != b.unicode_len() {
        return false;
    }
    let mut i: usize = 0;
    while i < n
        invariant
            i <= n,
            n == a@.len(),
            n == b@.len(),
            forall|k: int| 0 <= k < i ==> #[trigger] a@[k] == b@[k],
        decreases n - i,
    {
        if a.get_char(i) != b.get_char(i) {
            return false;
        }
        i += 1;
    }
    assert(a@ =~= b@);
    true
}

/// Where the first of the arguments that is `flag` stands.
fn find(args: &Vec<String>, flag: &str) -> (at: Option<usize>)
    ensures
        match at {
            Some(i) => i < args@.len() && position(args@, flag@, args@.len() as int) == Some(
                i as int,
            ),
            None => position(args@, flag@, args@.len() as int) is None,
        },
{
    let mut i: usize = 0;
    while i < args.len()
        invariant
            i <= args.len(),
            position(args@, flag@, i as int) is None,
        decreases args.len() - i,
    {
        if same(args[i].as_str(), flag) {
            proof {
                lemma_position(args@, flag@, i + 1, args@.len() as int);
            }
            return Some(i);
        }
        i += 1;
    }
    None
}

/// Arguments that come later do not change which is first.
proof fn lemma_position(args: Seq<String>, flag: Seq<char>, n: int, m: int)
    requires
        0 <= n <= m,
        position(args, flag, n) is Some,
    ensures
        position(args, flag, m) == position(args, flag, n),
    decreases m - n,
{
    if n < m {
        lemma_position(args, flag, n, m - 1);
    }
}

/// What the program does with these arguments; none if the camera is not given
/// as a number, though it has to be.
pub open spec fn job_of(args: Seq<String>) -> Option<Job> {
    if has(args, "--help"@) || has(args, "-h"@) {
        Some(Job::Help)
    } else if has(args, "--list-cameras"@) {
        Some(Job::ListCameras)
    } else if has(args, "--list-modes"@) {
        Some(Job::ListModes { camera: number(camera_value(args)) })
    } else if has(args, "--selftest"@) {
        Some(Job::SelfTest)
    } else if camera_value(args) is Some && number(camera_value(args)) is None {
        None
    } else {
        Some(Job::Run { camera: number(camera_value(args)) })
    }
}

/// Reads the command line, without the program's own name.
///
/// `--camera N` overrides the auto-selected device. Listing modes takes a
/// value that is no number for none at all; running does not.
pub fn parse(args: &Vec<String>) -> (job: Result<Job, NotANumber>)
    ensures
        match job {
            Ok(j) => job_of(args@) == Some(j),
            Err(e) => job_of(args@) is None && camera_value(args@) == Some(e.given@),
        },
{
    if find(args, "--help").is_some() || find(args, "-h").is_some() {
        return Ok(Job::Help);
    }
    if find(args, "--list-cameras").is_some() {
        return Ok(Job::ListCameras);
    }
    let given: Option<&String> = match find(args, "--camera") {
        Some(i) => if i < args.len() - 1 {
            Some(&args[i + 1])
        } else {
            None
        },
        None => None,
    };
    let camera: Option<u32> = match given {
        Some(text) => parse_u32(text.as_str()),
        None => None,
    };
    assert(camera == number(camera_value(args@)));
    if find(args, "--list-modes").is_some() {
        return Ok(Job::ListModes { camera });
    }
    if find(args, "--selftest").is_some() {
        return Ok(Job::SelfTest);
    }
    match given {
        Some(text) => {
            if camera.is_none() {
                return Err(NotANumber { given: text.clone() });
            }
        },
        None => {},
    }
    Ok(Job::Run { camera })
}

/// Running refuses a camera that is not a number, and nothing else.
pub proof fn law_only_a_bad_camera_is_refused(args: Seq<String>)
    ensures
        job_of(args) is None ==> camera_value(args) is Some && !is_number(camera_value(args)->0),
        camera_value(args) is None ==> job_of(args) is Some,
{
}

/// One of the arguments reads `flag`.
pub open spec fn given(args: Seq<String>, flag: Seq<char>) -> bool {
    exists|i: int| 0 <= i < args.len() && (#[trigger] args[i])@ == flag
}

proof fn lemma_position_is_first(args: Seq<String>, flag: Seq<char>, n: int)
    requires
        0 <= n <= args.len(),
    ensures
        match position(args, flag, n) {
            Some(i) => 0 <= i < n && args[i]@ == flag && forall|j: int|
                0 <= j < i ==> (#[trigger] args[j])@ != flag,
            None => forall|j: int| 0 <= j < n ==> (#[trigger] args[j])@ != flag,
        },
    decreases n,
{
    if n > 0 {
        lemma_position_is_first(args, flag, n - 1);
    }
}

/// The camera is what follows the first `--camera`, wherever that stands.
pub proof fn law_camera_follows_its_flag(args: Seq<String>, i: int)
    requires
        0 <= i < args.len(),
        args[i]@ == "--camera"@,
        forall|j: int| 0 <= j < i ==> (#[trigger] args[j])@ != "--camera"@,
    ensures
        i + 1 < args.len() ==> camera_value(args) == Some(args[i + 1]@),
        i + 1 == args.len() ==> camera_value(args) is None,
{
    lemma_position_is_first(args, "--camera"@, args.len() as int);
    let at = position(args, "--camera"@, args.len() as int)->0;
    if at != i {
        assert(args[at]@ == "--camera"@);
    }
}

/// Each job is done when its flag is given, in any place, and none that comes
/// before it is: help before the list of cameras, that before the list of
/// modes, that before the self-test, and running last.
pub proof fn law_flags_choose_the_job(args: Seq<String>)
    ensures
        ({
            let help = given(args, "--help"@) || given(args, "-h"@);
            let cameras = given(args, "--list-cameras"@);
            let modes = given(args, "--list-modes"@);
            let test = given(args, "--selftest"@);
            &&& (job_of(args) == Some(Job::Help) <==> help)
            &&& (job_of(args) == Some(Job::ListCameras) <==> !help && cameras)
            &&& (job_of(args) matches Some(Job::ListModes { .. }) <==> !help && !cameras && modes)
            &&& (job_of(args) == Some(Job::SelfTest) <==> !help && !cameras && !modes && test)
            &&& !help && !cameras && !modes && !test && !given(args, "--camera"@) ==> job_of(args)
                == Some(Job::Run { camera: None })
        }),
{
    lemma_given(args, "--help"@);
    lemma_given(args, "-h"@);
    lemma_given(args, "--list-cameras"@);
    lemma_given(args, "--list-modes"@);
    lemma_given(args, "--selftest"@);
    lemma_given(args, "--camera"@);
}

proof fn lemma_given(args: Seq<String>, flag: Seq<char>)
    ensures
        has(args, flag) <==> given(args, flag),
{
    lemma_position_is_first(args, flag, args.len() as int);
    if has(args, flag) {
        let i = position(args, flag, args.len() as int)->0;
        assert(args[i]@ == flag);
    }
}

/// A camera given as a number is the one to run on and to list the modes of;
/// one given as anything else is refused for running and passed over for
/// listing.
pub proof fn law_camera_number_is_used(args: Seq<String>, i: int)
    requires
        0 <= i,
        i + 1 < args.len(),
        args[i]@ == "--camera"@,
        forall|j: int| 0 <= j < i ==> (#[trigger] args[j])@ != "--camera"@,
        !given(args, "--help"@),
        !given(args, "-h"@),
        !given(args, "--list-cameras"@),
    ensures
        ({
            let text = args[i + 1]@;
            let n = value(digits_of(text)) as u32;
            &&& given(args, "--list-modes"@) ==> job_of(args) == Some(
                Job::ListModes {
                    camera: if is_number(text) {
                        Some(n)
                    } else {
                        None
                    },
                },
            )
            &&& !given(args, "--list-modes"@) && !given(args, "--selftest"@) ==> job_of(args)
                == if is_number(text) {
                Some(Job::Run { camera: Some(n) })
            } else {
                None
            }
        }),
{
    law_camera_follows_its_flag(args, i);
    lemma_given(args, "--help"@);
    lemma_given(args, "-h"@);
    lemma_given(args, "--list-cameras"@);
    lemma_given(args, "--list-modes"@);
    lemma_given(args, "--selftest"@);
}

} // verus!
