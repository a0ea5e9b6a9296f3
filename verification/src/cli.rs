//! The command line of the snapshot window: a repository path and a choice
//! of display backend.
use vstd::prelude::*;

use crate::text::{has_prefix, starts_with, chars_of};

verus! {

/// The display backend to run the window on.
#[derive(Clone, Copy, Debug, PartialEq, Eq, Structural)]
pub enum DisplayBackend {
    X11,
    Wayland,
}

/// What the arguments ask for: `--x11` and `--wayland` choose a backend
/// (the last one counts), other options are ignored, and the first other
/// argument is the repository path.
pub open spec fn requested_of(args: Seq<Seq<char>>) -> (Option<Seq<char>>, Option<DisplayBackend>)
    decreases args.len(),
{
    if args.len() == 0 {
        (None, None)
    } else {
        let (path, backend) = requested_of(args.drop_last());
        let a = args.last();
        if a == "--x11"@ {
            (path, Some(DisplayBackend::X11))
        } else if a == "--wayland"@ {
            (path, Some(DisplayBackend::Wayland))
        } else if has_prefix(a, "--"@) {
            (path, backend)
        } else if path is None {
            (Some(a), backend)
        } else {
            (path, backend)
        }
    }
}

fn is_text(a: &String, lit: &str) -> (r: bool)
    ensures
        r == (a@ == lit@),
{
    crate::analysis::syntax::text_is(a.as_str(), lit)
}

/// Reads the arguments that follow the program name.
pub fn requested_repo_path_and_backend(args: &Vec<String>) -> (r: (Option<String>, Option<DisplayBackend>))
    ensures
        (match r.0 {
            Some(p) => Some(p@),
            None => None,
        }, r.1) == requested_of(args@.map_values(|a: String| a@)),
{
    let ghost all = args@.map_values(|a: String| a@);
    let mut repo_path: Option<String> = None;
    let mut backend: Option<DisplayBackend> = None;
    let mut i: usize = 0;
    while i < args.len()
        invariant
            i <= args@.len(),
            all == args@.map_values(|a: String| a@),
            (match repo_path {
                Some(p) => Some(p@),
                None => None,
            }, backend) == requested_of(all.take(i as int)),
        decreases args@.len() - i,
    {
        let arg = &args[i];
        assert(all.take(i + 1).drop_last() =~= all.take(i as int));
        assert(all.take(i + 1).last() == arg@);
        let dashes = chars_of("--");
        let cs = chars_of(arg.as_str());
        if is_text(arg, "--x11") {
            backend = Some(DisplayBackend::X11);
        } else if is_text(arg, "--wayland") {
            backend = Some(DisplayBackend::Wayland);
        } else if starts_with(cs.as_slice(), dashes.as_slice()) {
        } else if repo_path.is_none() {
            repo_path = Some(arg.clone());
        }
        i = i + 1;
    }
    assert(all.take(i as int) =~= all);
    (repo_path, backend)
}

/// The environment variable to clear so that the window runs on the chosen
/// backend: `WAYLAND_DISPLAY` for X11, `DISPLAY` for Wayland.
pub fn display_variable_to_clear(backend: Option<DisplayBackend>) -> (r: Option<String>)
    ensures
        match backend {
            Some(DisplayBackend::X11) => r matches Some(v) && v@ == "WAYLAND_DISPLAY"@,
            Some(DisplayBackend::Wayland) => r matches Some(v) && v@ == "DISPLAY"@,
            None => r is None,
        },
{
    match backend {
        Some(DisplayBackend::X11) => Some("WAYLAND_DISPLAY".to_owned()),
        Some(DisplayBackend::Wayland) => Some("DISPLAY".to_owned()),
        None => None,
    }
}

} // verus!
