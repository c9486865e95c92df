//! Where the embedding server keeps its files: the `uv` tool, its cache and the server
//! logs, all under the application data directory, and where `uv` is downloaded from.

use vstd::prelude::*;

verus! {

/// The path separator: `\\` on Windows, `/` elsewhere.
pub open spec fn separator(windows: bool) -> char {
    if windows {
        '\\'
    } else {
        '/'
    }
}

/// `name` joined to the directory `base` with the separator `sep`, as a path join does:
/// no separator is added after one that is already there.
pub open spec fn join_path(base: Seq<char>, name: Seq<char>, sep: char) -> Seq<char> {
    if base.len() == 0 {
        name
    } else if base.last() == '/' || base.last() == sep {
        base + name
    } else {
        base + seq![sep] + name
    }
}

/// Joins `name` to the directory `base`.
pub fn join_path_str(base: &str, name: &str, windows: bool) -> (r: String)
    ensures
        r@ == join_path(base@, name@, separator(windows)),
{
    let sep = if windows { "\\" } else { "/" };
    proof {
        reveal_strlit("\\");
        reveal_strlit("/");
    }
    let sep_char = if windows { '\\' } else { '/' };
    let n = base.unicode_len();
    let mut out = String::from_str(base);
    if n > 0 {
        let last = base.get_char(n - 1);
        if last != '/' && last != sep_char {
            out.append(sep);
        }
    }
    out.append(name);
    out
}

/// The application data directory, set once at startup.
pub struct AppDataDir {
    dir: Option<String>,
}

impl AppDataDir {
    pub closed spec fn view_dir(&self) -> Option<Seq<char>> {
        match self.dir {
            Some(d) => Some(d@),
            None => None,
        }
    }

    /// Not set yet.
    pub fn new() -> (r: AppDataDir)
        ensures
            r.view_dir() is None,
    {
        AppDataDir { dir: None }
    }

    /// Sets the directory; once set, it stays.
    pub fn init_app_data_dir(&mut self, dir: String)
        ensures
            final(self).view_dir() == (match old(self).view_dir() {
                Some(d) => Some(d),
                None => Some(dir@),
            }),
    {
        if self.dir.is_none() {
            self.dir = Some(dir);
        }
    }

    /// The directory, or `asseteer` in the temporary directory `temp_dir` while unset.
    pub fn app_data_dir(&self, temp_dir: &str, windows: bool) -> (r: String)
        ensures
            r@ == match self.view_dir() {
                Some(d) => d,
                None => join_path(temp_dir@, seq!['a', 's', 's', 'e', 't', 'e', 'e', 'r'], separator(windows)),
            },
    {
        match &self.dir {
            Some(d) => d.clone(),
            None => {
                let name = "asseteer";
                proof {
                    reveal_strlit("asseteer");
                }
                join_path_str(temp_dir, name, windows)
            },
        }
    }
}

/// The `uv` program in the data directory: `uv/uv.exe` on Windows, `uv/uv` elsewhere.
pub fn uv_bin_path(data_dir: &str, windows: bool) -> (r: String)
    ensures
        r@ == join_path(
            join_path(data_dir@, seq!['u', 'v'], separator(windows)),
            if windows { seq!['u', 'v', '.', 'e', 'x', 'e'] } else { seq!['u', 'v'] },
            separator(windows),
        ),
{
    let uv = "uv";
    let exe = "uv.exe";
    proof {
        reveal_strlit("uv");
        reveal_strlit("uv.exe");
    }
    let dir = join_path_str(data_dir, uv, windows);
    join_path_str(dir.as_str(), if windows { exe } else { uv }, windows)
}

/// The `uv` cache (Python and packages) in the data directory.
pub fn uv_cache_dir(data_dir: &str, windows: bool) -> (r: String)
    ensures
        r@ == join_path(data_dir@, seq!['u', 'v', '-', 'c', 'a', 'c', 'h', 'e'], separator(windows)),
{
    let name = "uv-cache";
    proof {
        reveal_strlit("uv-cache");
    }
    join_path_str(data_dir, name, windows)
}

/// The server logs in the data directory.
pub fn log_dir(data_dir: &str, windows: bool) -> (r: String)
    ensures
        r@ == join_path(data_dir@, seq!['c', 'l', 'a', 'p', '-', 'l', 'o', 'g', 's'], separator(windows)),
{
    let name = "clap-logs";
    proof {
        reveal_strlit("clap-logs");
    }
    join_path_str(data_dir, name, windows)
}

} // verus!
