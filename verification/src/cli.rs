//! The arguments that the program is started with.

use crate::text::{chars_of, str_equal};
use crate::types::{opt_text, starts_with, texts};
use vstd::prelude::*;
use vstd::string::*;
use vstd::utf8::{decode_utf8, valid_utf8};

verus! {

/// What the arguments say.
#[derive(Debug)]
pub struct Arguments {
    /// Run without a window.
    pub headless: bool,
    /// Where torrents are saved.
    pub download_dir: Option<String>,
    /// Magnet links and torrent files, as they were given.
    pub inputs: Vec<String>,
}

/// Something to download.
#[derive(Debug)]
pub enum Input {
    /// A magnet link.
    Magnet(String),
    /// The path of a torrent file.
    File(String),
}

/// The directory that the arguments from `i` on name; the last one counts.
pub open spec fn named_dir(args: Seq<Seq<char>>, i: int) -> Option<Seq<char>>
    decreases args.len() - i,
{
    if i >= args.len() {
        None
    } else if args[i] == "--download-dir"@ && i + 1 < args.len() {
        match named_dir(args, i + 2) {
            Some(d) => Some(d),
            None => Some(args[i + 1]),
        }
    } else {
        named_dir(args, i + 1)
    }
}

/// The arguments from `i` on that are neither options nor their values.
pub open spec fn plain_arguments(args: Seq<Seq<char>>, i: int) -> Seq<Seq<char>>
    decreases args.len() + 1 - i,
{
    if i >= args.len() {
        seq![]
    } else if args[i] == "--download-dir"@ {
        plain_arguments(args, i + 2)
    } else if "--"@.is_prefix_of(args[i]) {
        plain_arguments(args, i + 1)
    } else {
        seq![args[i]] + plain_arguments(args, i + 1)
    }
}

/// A text without a prefix that it may have.
pub open spec fn without_prefix(s: Seq<char>, prefix: Seq<char>) -> Seq<char> {
    if prefix.is_prefix_of(s) {
        s.skip(prefix.len() as int)
    } else {
        s
    }
}

/// Whether a text starts with another.
fn begins(s: &str, prefix: &str) -> (r: bool)
    ensures
        r == prefix@.is_prefix_of(s@),
{
    let a: Vec<char> = chars_of(s);
    let b: Vec<char> = chars_of(prefix);
    starts_with(a.as_slice(), b.as_slice())
}

impl Arguments {
    /// Reads the arguments, the first of which is the name of the program.
    pub fn parse(args: &Vec<String>) -> (r: Arguments)
        ensures
            r.headless == texts(args@).contains("--headless"@),
            opt_text(r.download_dir) == named_dir(texts(args@), 0),
            texts(r.inputs@) == plain_arguments(texts(args@), 1),
    {
        let ghost all = texts(args@);
        let mut headless: bool = false;
        let mut i: usize = 0;
        while i < args.len()
            invariant
                i <= args.len(),
                all == texts(args@),
                headless == (exists|k: int| 0 <= k < i && #[trigger] all[k] == "--headless"@),
            decreases args.len() - i,
        {
            if str_equal(args[i].as_str(), "--headless") {
                assert(all[i as int] == "--headless"@);
                headless = true;
            }
            i += 1;
        }
        let mut download_dir: Option<String> = None;
        let mut j: usize = 0;
        while j < args.len()
            invariant
                j <= args.len(),
                all == texts(args@),
                named_dir(all, 0) == match named_dir(all, j as int) {
                    Some(d) => Some(d),
                    None => opt_text(download_dir),
                },
            decreases args.len() - j,
        {
            assert(all[j as int] == args@[j as int]@);
            if str_equal(args[j].as_str(), "--download-dir") && j < args.len() - 1 {
                assert(all[j + 1] == args@[j + 1]@);
                download_dir = Some(args[j + 1].clone());
                j += 2;
            } else {
                j += 1;
            }
        }
        let mut inputs: Vec<String> = Vec::new();
        let mut k: usize = 1;
        assert(texts(inputs@) =~= seq![]);
        while k < args.len()
            invariant
                1 <= k <= args.len() + 1,
                args.len() == all.len(),
                all == texts(args@),
                texts(inputs@) + plain_arguments(all, k as int) == plain_arguments(all, 1),
            decreases args.len() + 1 - k,
        {
            let a: &str = args[k].as_str();
            assert(all[k as int] == a@);
            let ghost at = k as int;
            if str_equal(a, "--download-dir") {
                assert(plain_arguments(all, at) == plain_arguments(all, at + 2));
                k = if k < args.len() - 1 {
                    k + 2
                } else {
                    args.len()
                };
                assert(plain_arguments(all, k as int) =~= plain_arguments(all, at + 2));
            } else if begins(a, "--") {
                k += 1;
            } else {
                assert(plain_arguments(all, at) == seq![all[at]] + plain_arguments(all, at + 1));
                let ghost before = texts(inputs@);
                inputs.push(args[k].clone());
                assert(texts(inputs@) =~= before.push(a@));
                k += 1;
                assert(texts(inputs@) + plain_arguments(all, at + 1) =~= before + plain_arguments(
                    all,
                    at,
                ));
            }
        }
        assert(texts(inputs@) =~= plain_arguments(all, 1));
        Arguments { headless, download_dir, inputs }
    }
}

/// The magnet link that bytes write; nothing if they write something else.
pub fn linked_magnet(data: &[u8]) -> (r: Option<String>)
    ensures
        match r {
            Some(link) => {
                &&& valid_utf8(data@)
                &&& link@ == decode_utf8(data@)
                &&& "magnet:?"@.is_prefix_of(link@)
            },
            None => !(valid_utf8(data@) && "magnet:?"@.is_prefix_of(decode_utf8(data@))),
        },
{
    match core::str::from_utf8(data) {
        Ok(text) => if begins(text, "magnet:?") {
            Some(text.to_string())
        } else {
            None
        },
        Err(_) => None,
    }
}

impl Input {
    /// Tells a magnet link from a path; a path may be written as a URL.
    pub fn of(arg: &str) -> (r: Input)
        ensures
            if "magnet:"@.is_prefix_of(arg@) {
                r matches Input::Magnet(m) && m@ == arg@
            } else {
                r matches Input::File(p) && p@ == without_prefix(arg@, "file://"@)
            },
    {
        if begins(arg, "magnet:") {
            return Input::Magnet(arg.to_string());
        }
        if begins(arg, "file://") {
            proof {
                reveal_strlit("file://");
            }
            let n: usize = arg.unicode_len();
            let rest: &str = arg.substring_char(7, n);
            assert(rest@ =~= arg@.skip(7));
            return Input::File(rest.to_string());
        }
        Input::File(arg.to_string())
    }
}

} // verus!
