//! Where the language server of Kotlin and the libraries of Clang are.
use vstd::prelude::*;
use vstd::string::*;
use crate::graph::text_in;
use crate::compdb::{join_path, joined};
use crate::dotnet::{inside, parent_of, parent_path, path_inside};
use crate::indexers::{no_texts, opt_text, push_text};
use crate::text::{chars_of, copy_text, string_of, texts, trim, trimmed};
use crate::version::{grandparent, grandparent_path, one, printed, printed_line};

verus! {

/// The user's home directory, from the variable that the system sets first.
pub fn travsr_home(windows: bool, home: Option<String>, user_profile: Option<String>) -> (r: Option<
    String,
>)
    ensures
        r == if windows {
            if user_profile is Some {
                user_profile
            } else {
                home
            }
        } else {
            if home is Some {
                home
            } else {
                user_profile
            }
        },
{
    if windows {
        match user_profile {
            Some(p) => Some(p),
            None => home,
        }
    } else {
        match home {
            Some(h) => Some(h),
            None => user_profile,
        }
    }
}

/// The names that the language server of Kotlin is installed under.
pub open spec fn server_names(windows: bool) -> Seq<Seq<char>> {
    if windows {
        seq![
            "kotlin-language-server.cmd"@,
            "kotlin-language-server.bat"@,
            "kotlin-language-server.exe"@,
        ]
    } else {
        seq!["kotlin-language-server"@]
    }
}

/// Where travsr itself installs programs.
pub open spec fn managed_dir(home: Seq<char>, windows: bool) -> Seq<char> {
    inside(inside(home, ".travsr"@, windows), "bin"@, windows)
}

/// Where the language server of Kotlin is, if travsr installed it. It is
/// preferred to one on the path.
pub fn managed_kls(home: &str, windows: bool) -> (r: Vec<String>)
    ensures
        texts(r@) == crate::dotnet::each_inside(managed_dir(home@, windows), server_names(windows), windows),
{
    let dir = path_inside(path_inside(home, ".travsr", windows).as_str(), "bin", windows);
    let d = dir.as_str();
    let mut v = no_texts();
    if windows {
        push_text(&mut v, path_inside(d, "kotlin-language-server.cmd", windows).as_str());
        push_text(&mut v, path_inside(d, "kotlin-language-server.bat", windows).as_str());
        push_text(&mut v, path_inside(d, "kotlin-language-server.exe", windows).as_str());
    } else {
        push_text(&mut v, path_inside(d, "kotlin-language-server", windows).as_str());
    }
    v
}

/// What to say when the language server of Kotlin is not found.
pub const KLS_MISSING: &'static str =
    "kotlin-language-server not found \u{2014} install at ~/.travsr/bin/kotlin-language-server";

/// The library of Clang.
pub const LIBCLANG_NAME: &'static str = "libclang.dylib";

/// A variable that names the library or its directory.
#[derive(Debug)]
pub struct LibclangPath {
    pub path: String,
    pub is_file: bool,
}

/// The directory that the variable names.
pub open spec fn named_dir(variable: Option<LibclangPath>) -> Option<Seq<char>> {
    match variable {
        Some(v) => if v.is_file {
            parent_of(v.path@, false)
        } else {
            Some(v.path@)
        },
        None => None,
    }
}

/// The directory of libraries beside the compiler that is in use.
pub open spec fn beside_compiler(compiler: Option<Seq<char>>) -> Option<Seq<char>> {
    match compiler {
        Some(c) => match grandparent(trim(c), false) {
            Some(usr) => Some(inside(usr, "lib"@, false)),
            None => None,
        },
        None => None,
    }
}

/// Where the library of Clang is usually installed.
pub open spec fn usual_libclang_dirs() -> Seq<Seq<char>> {
    seq![
        "/Applications/Xcode.app/Contents/Developer/Toolchains/XcodeDefault.xctoolchain/usr/lib"@,
        "/Library/Developer/CommandLineTools/usr/lib"@,
        "/opt/homebrew/opt/llvm/lib"@,
        "/usr/local/opt/llvm/lib"@,
    ]
}

/// Where the library of Clang may be, the first choice first: where the
/// variable says, beside the compiler in use, and where it usually is. The
/// first directory that holds it is meant.
pub fn libclang_dirs(variable: Option<LibclangPath>, compiler: Option<&str>) -> (r: Vec<String>)
    ensures
        texts(r@) == one(named_dir(variable)) + one(beside_compiler(opt_text(compiler)))
            + usual_libclang_dirs(),
{
    let mut v = no_texts();
    match &variable {
        Some(p) => {
            if p.is_file {
                match parent_path(p.path.as_str(), false) {
                    Some(dir) => {
                        push_text(&mut v, dir.as_str());
                    },
                    None => {},
                }
            } else {
                push_text(&mut v, p.path.as_str());
            }
        },
        None => {},
    }
    match compiler {
        Some(c) => {
            let chars = chars_of(c);
            let path = string_of(trimmed(chars.as_slice()));
            match grandparent_path(path.as_str(), false) {
                Some(usr) => {
                    push_text(&mut v, path_inside(usr.as_str(), "lib", false).as_str());
                },
                None => {},
            }
        },
        None => {},
    }
    push_text(
        &mut v,
        "/Applications/Xcode.app/Contents/Developer/Toolchains/XcodeDefault.xctoolchain/usr/lib",
    );
    push_text(&mut v, "/Library/Developer/CommandLineTools/usr/lib");
    push_text(&mut v, "/opt/homebrew/opt/llvm/lib");
    push_text(&mut v, "/usr/local/opt/llvm/lib");
    v
}

/// What to say when the library of Clang cannot be loaded.
pub open spec fn libclang_text(reason: Seq<char>) -> Seq<char> {
    "libclang could not be loaded: "@ + reason
        + ". Install the Xcode Command Line Tools (`xcode-select --install`) or set LIBCLANG_PATH to a directory containing libclang.dylib."@
}

/// What to say when the library of Clang cannot be loaded.
pub fn libclang_message(reason: &str) -> (r: String)
    ensures
        r@ == libclang_text(reason@),
{
    let mut s = copy_text("libclang could not be loaded: ");
    s.append(reason);
    s.append(
        ". Install the Xcode Command Line Tools (`xcode-select --install`) or set LIBCLANG_PATH to a directory containing libclang.dylib.",
    );
    s
}

/// Where the frameworks of the platform are that `xcrun` printed, if it is
/// one that has them.
pub fn frameworks_dir(success: bool, out: &str) -> (r: Option<String>)
    ensures
        text_in(r) == match printed(success, out@) {
            Some(base) => Some(joined(base, "Developer/Library/Frameworks"@)),
            None => None,
        },
{
    match printed_line(success, out) {
        Some(base) => Some(join_path(base.as_str(), "Developer/Library/Frameworks")),
        None => None,
    }
}

/// The SDK that `xcrun` printed.
pub fn sdk_path(success: bool, out: &str) -> (r: Option<String>)
    ensures
        text_in(r) == if success {
            Some(trim(out@))
        } else {
            None
        },
{
    if !success {
        return None;
    }
    let chars = chars_of(out);
    Some(string_of(trimmed(chars.as_slice())))
}

/// The variable may name the library or its directory, and the compiler in use
/// leads to the libraries beside its own directory.
pub proof fn law_library_is_found_by_name_or_directory(
    v: LibclangPath,
    dir: Seq<char>,
    name: Seq<char>,
    bin: Seq<char>,
    compiler: Seq<char>,
)
    requires
        dir.len() > 0,
        !crate::text::is_white(dir[0]),
        dir.last() != '/',
        dir.last() != '.',
        crate::version::is_plain_name(name),
        crate::version::is_plain_name(bin),
        crate::version::is_plain_name(compiler),
        !crate::text::is_white(compiler.last()),
    ensures
        v.is_file && v.path@ == dir + seq!['/'] + name ==> named_dir(Some(v)) == Some(dir),
        !v.is_file ==> named_dir(Some(v)) == Some(v.path@),
        named_dir(None) is None,
        beside_compiler(Some(dir + seq!['/'] + bin + seq!['/'] + compiler + seq!['\n'])) == Some(
            dir + "/lib"@,
        ),
        beside_compiler(None) is None,
{
    let a = dir + seq!['/'] + bin;
    let c = a + seq!['/'] + compiler;
    crate::dotnet::law_parent_undoes_inside(dir, name, false);
    crate::dotnet::law_parent_undoes_inside(dir, bin, false);
    assert(a.last() == bin.last());
    crate::dotnet::law_parent_undoes_inside(a, compiler, false);
    let none = Seq::<char>::empty();
    assert(c[0] == dir[0]);
    assert(c.last() == compiler.last());
    crate::text::law_blanks_around_a_text_are_trimmed(none, c, seq!['\n']);
    assert(none + c + seq!['\n'] =~= c + seq!['\n']);
    reveal_strlit("/");
    reveal_strlit("lib");
    reveal_strlit("/lib");
    assert(dir + "/"@ + "lib"@ =~= dir + "/lib"@);
}

/// What travsr installs lies below the home directory, in `.travsr/bin`.
pub proof fn law_managed_programs_lie_below_home(home: Seq<char>)
    requires
        home.len() > 0,
        home.last() != '/',
    ensures
        managed_dir(home, false) == home + "/.travsr/bin"@,
        server_names(false) == seq!["kotlin-language-server"@],
{
    reveal_strlit("/");
    reveal_strlit(".travsr");
    reveal_strlit("bin");
    reveal_strlit("/.travsr/bin");
    let a = home + "/"@ + ".travsr"@;
    assert(a.last() == 'r');
    assert(a + "/"@ + "bin"@ =~= home + "/.travsr/bin"@);
}

} // verus!
