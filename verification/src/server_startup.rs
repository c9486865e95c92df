//! Starting the semantic-search server: the command lines it is started with, and the
//! schedule of the wait for it to answer.

use vstd::prelude::*;
use vstd::string::StrSliceExecFns;
use crate::grouping::names_view;
use crate::text::{chars_of, trim, trim_range};

verus! {

/// The decimal digits of `n`, without leading zeros.
pub open spec fn decimal(n: nat) -> Seq<char>
    decreases n,
{
    if n < 10 {
        seq![digit_char((n % 10) as nat)]
    } else {
        decimal(n / 10).push(digit_char((n % 10) as nat))
    }
}

/// The character of a decimal digit.
pub open spec fn digit_char(d: nat) -> char {
    (('0' as nat) + d) as char
}

/// The one-character text of a decimal digit.
fn digit_text(d: u64) -> (r: &'static str)
    requires
        d < 10,
    ensures
        r@ == seq![digit_char(d as nat)],
{
    if d == 0 {
        proof {
            reveal_strlit("0");
        }
        "0"
    } else if d == 1 {
        proof {
            reveal_strlit("1");
        }
        "1"
    } else if d == 2 {
        proof {
            reveal_strlit("2");
        }
        "2"
    } else if d == 3 {
        proof {
            reveal_strlit("3");
        }
        "3"
    } else if d == 4 {
        proof {
            reveal_strlit("4");
        }
        "4"
    } else if d == 5 {
        proof {
            reveal_strlit("5");
        }
        "5"
    } else if d == 6 {
        proof {
            reveal_strlit("6");
        }
        "6"
    } else if d == 7 {
        proof {
            reveal_strlit("7");
        }
        "7"
    } else if d == 8 {
        proof {
            reveal_strlit("8");
        }
        "8"
    } else {
        proof {
            reveal_strlit("9");
        }
        "9"
    }
}

/// `n` written in decimal, as `to_string` writes an unsigned number.
pub fn decimal_text(n: u64) -> (r: String)
    ensures
        r@ == decimal(n as nat),
{
    let mut digits: Vec<u64> = Vec::new();
    let mut m: u64 = n;
    proof {
        assert(digits@.reverse() =~= Seq::<u64>::empty());
        assert(decimal(n as nat) =~= decimal(m as nat) + digit_seq(digits@.reverse()));
    }
    loop
        invariant_except_break
            decimal(n as nat) == decimal(m as nat) + digit_seq(digits@.reverse()),
        invariant
            forall|j: int| 0 <= j < digits@.len() ==> #[trigger] digits@[j] < 10,
        ensures
            decimal(n as nat) == digit_seq(digits@.reverse()),
        decreases m,
    {
        let ghost before = digits@;
        digits.push(m % 10);
        proof {
            assert(digits@.reverse() =~= seq![m % 10] + before.reverse());
            lemma_digit_seq_cons(m % 10, before.reverse());
        }
        if m < 10 {
            proof {
                assert(decimal(m as nat) =~= seq![digit_char((m % 10) as nat)]);
                assert(decimal(n as nat) =~= digit_seq(digits@.reverse()));
            }
            break;
        }
        proof {
            assert(decimal(m as nat) =~= decimal((m / 10) as nat) + seq![digit_char((m % 10) as nat)]);
            assert(decimal(n as nat) =~= decimal((m / 10) as nat) + digit_seq(digits@.reverse()));
        }
        m = m / 10;
    }
    let mut out = String::new();
    let mut i: usize = digits.len();
    let ghost all = digit_seq(digits@.reverse());
    proof {
        lemma_digit_seq_len(digits@.reverse());
        assert(out@ =~= all.take(0));
    }
    while i > 0
        invariant
            i <= digits@.len(),
            all == digit_seq(digits@.reverse()),
            all.len() == digits@.len(),
            forall|j: int| 0 <= j < digits@.len() ==> #[trigger] digits@[j] < 10,
            out@ == all.take(digits@.len() - i),
            decimal(n as nat) == all,
        decreases i,
    {
        let piece = digit_text(digits[i - 1]);
        out = out.concat(piece);
        proof {
            lemma_digit_seq_index(digits@.reverse(), digits@.len() - i);
            assert(digits@.reverse()[digits@.len() - i] == digits@[i - 1]);
            assert(out@ =~= all.take(digits@.len() - i + 1));
        }
        i = i - 1;
    }
    proof {
        assert(all.take(digits@.len() as int) =~= all);
    }
    out
}

/// The characters of a sequence of decimal digits.
pub open spec fn digit_seq(ds: Seq<u64>) -> Seq<char>
    decreases ds.len(),
{
    if ds.len() == 0 {
        Seq::empty()
    } else {
        seq![digit_char(ds[0] as nat)] + digit_seq(ds.drop_first())
    }
}

proof fn lemma_digit_seq_cons(d: u64, ds: Seq<u64>)
    ensures
        digit_seq(seq![d] + ds) == seq![digit_char(d as nat)] + digit_seq(ds),
{
    assert((seq![d] + ds).drop_first() =~= ds);
}

proof fn lemma_digit_seq_len(ds: Seq<u64>)
    ensures
        digit_seq(ds).len() == ds.len(),
    decreases ds.len(),
{
    if ds.len() > 0 {
        lemma_digit_seq_len(ds.drop_first());
    }
}

proof fn lemma_digit_seq_index(ds: Seq<u64>, j: int)
    requires
        0 <= j < ds.len(),
    ensures
        digit_seq(ds)[j] == digit_char(ds[j] as nat),
    decreases ds.len(),
{
    lemma_digit_seq_len(ds.drop_first());
    if j > 0 {
        lemma_digit_seq_index(ds.drop_first(), j - 1);
    }
}

/// The arguments `uv` starts the server with on port `port`, with the GPU wheel index
/// when one was chosen: `run --python 3.13 [--index <index>] clap_server.py --port <port>`.
pub open spec fn uv_args(index: Option<Seq<char>>, port: nat) -> Seq<Seq<char>> {
    let run = seq!['r', 'u', 'n'];
    let python = seq!['-', '-', 'p', 'y', 't', 'h', 'o', 'n'];
    let version = seq!['3', '.', '1', '3'];
    let index_flag = seq!['-', '-', 'i', 'n', 'd', 'e', 'x'];
    let script = seq!['c', 'l', 'a', 'p', '_', 's', 'e', 'r', 'v', 'e', 'r', '.', 'p', 'y'];
    let port_flag = seq!['-', '-', 'p', 'o', 'r', 't'];
    seq![run, python, version] + match index {
        Some(i) => seq![index_flag, i],
        None => Seq::empty(),
    } + seq![script, port_flag, decimal(port)]
}

/// The arguments the fallback virtual environment's Python starts the server with:
/// `-m uvicorn clap_server:app --host 127.0.0.1 --port <port>`.
pub open spec fn venv_args(port: nat) -> Seq<Seq<char>> {
    let module_flag = seq!['-', 'm'];
    let uvicorn = seq!['u', 'v', 'i', 'c', 'o', 'r', 'n'];
    let app = seq!['c', 'l', 'a', 'p', '_', 's', 'e', 'r', 'v', 'e', 'r', ':', 'a', 'p', 'p'];
    let host_flag = seq!['-', '-', 'h', 'o', 's', 't'];
    let localhost = seq!['1', '2', '7', '.', '0', '.', '0', '.', '1'];
    let port_flag = seq!['-', '-', 'p', 'o', 'r', 't'];
    seq![module_flag, uvicorn, app, host_flag, localhost, port_flag, decimal(port)]
}

/// The command line for `uv run` that starts the server.
pub fn uv_run_args(gpu_index: Option<&str>, port: u16) -> (r: Vec<String>)
    ensures
        names_view(r@) == uv_args(
            match gpu_index {
                Some(i) => Some(i@),
                None => None,
            },
            port as nat,
        ),
{
    let run = "run";
    let pyflag = "--python";
    let pyver = "3.13";
    let indexflag = "--index";
    let script = "clap_server.py";
    let portflag = "--port";
    proof {
        reveal_strlit("run");
        reveal_strlit("--python");
        reveal_strlit("3.13");
        reveal_strlit("--index");
        reveal_strlit("clap_server.py");
        reveal_strlit("--port");
        assert(run@ =~= seq!['r', 'u', 'n']);
        assert(pyflag@ =~= seq!['-', '-', 'p', 'y', 't', 'h', 'o', 'n']);
        assert(pyver@ =~= seq!['3', '.', '1', '3']);
        assert(indexflag@ =~= seq!['-', '-', 'i', 'n', 'd', 'e', 'x']);
        assert(script@ =~= seq!['c', 'l', 'a', 'p', '_', 's', 'e', 'r', 'v', 'e', 'r', '.', 'p', 'y']);
        assert(portflag@ =~= seq!['-', '-', 'p', 'o', 'r', 't']);
    }
    let mut v: Vec<String> = Vec::new();
    v.push(String::from_str(run));
    v.push(String::from_str(pyflag));
    v.push(String::from_str(pyver));
    match gpu_index {
        Some(i) => {
            v.push(String::from_str(indexflag));
            v.push(String::from_str(i));
        },
        None => {},
    }
    v.push(String::from_str(script));
    v.push(String::from_str(portflag));
    v.push(decimal_text(port as u64));
    proof {
        assert(names_view(v@) =~= uv_args(
            match gpu_index {
                Some(i) => Some(i@),
                None => None,
            },
            port as nat,
        ));
    }
    v
}

/// The command line for the fallback virtual environment's Python.
pub fn venv_server_args(port: u16) -> (r: Vec<String>)
    ensures
        names_view(r@) == venv_args(port as nat),
{
    let m = "-m";
    let uvicorn = "uvicorn";
    let app = "clap_server:app";
    let host = "--host";
    let local = "127.0.0.1";
    let portflag = "--port";
    proof {
        reveal_strlit("-m");
        reveal_strlit("uvicorn");
        reveal_strlit("clap_server:app");
        reveal_strlit("--host");
        reveal_strlit("127.0.0.1");
        reveal_strlit("--port");
        assert(m@ =~= seq!['-', 'm']);
        assert(uvicorn@ =~= seq!['u', 'v', 'i', 'c', 'o', 'r', 'n']);
        assert(app@ =~= seq!['c', 'l', 'a', 'p', '_', 's', 'e', 'r', 'v', 'e', 'r', ':', 'a', 'p', 'p']);
        assert(host@ =~= seq!['-', '-', 'h', 'o', 's', 't']);
        assert(local@ =~= seq!['1', '2', '7', '.', '0', '.', '0', '.', '1']);
        assert(portflag@ =~= seq!['-', '-', 'p', 'o', 'r', 't']);
    }
    let mut v: Vec<String> = Vec::new();
    v.push(String::from_str(m));
    v.push(String::from_str(uvicorn));
    v.push(String::from_str(app));
    v.push(String::from_str(host));
    v.push(String::from_str(local));
    v.push(String::from_str(portflag));
    v.push(decimal_text(port as u64));
    proof {
        assert(names_view(v@) =~= venv_args(port as nat));
    }
    v
}

/// How many times the server is polled before giving up: every half second for 30
/// minutes.
pub const MAX_READY_POLLS: u32 = 3600;

/// Milliseconds between polls.
pub const POLL_INTERVAL_MS: u32 = 500;

/// Whether the log is tailed for a progress line after poll `i`: every 20 polls (10
/// seconds), from the 20th on.
pub fn progress_due(i: u32) -> (r: bool)
    ensures
        r == (i > 0 && i % 20 == 19),
{
    i > 0 && i % 20 == 19
}

/// How long the server took to answer when it answered at poll `i`.
pub fn ready_after_ms(i: u32) -> (r: u32)
    requires
        i < MAX_READY_POLLS,
    ensures
        r == (i + 1) * POLL_INTERVAL_MS,
{
    (i + 1) * POLL_INTERVAL_MS
}

/// The part of the error for a server that exited that shows its log: nothing for an
/// empty log tail, otherwise a blank line, `Last log output:` and the tail.
pub open spec fn exit_log_section_of(tail: Seq<char>) -> Seq<char> {
    if tail.len() == 0 {
        Seq::empty()
    } else {
        seq!['\n', '\n', 'L', 'a', 's', 't', ' ', 'l', 'o', 'g', ' ', 'o', 'u', 't', 'p', 'u', 't', ':', '\n'] + tail
    }
}

/// The log section of the error for a server that exited, from its log's last bytes:
/// they are trimmed, and an empty tail adds nothing.
pub fn exit_log_section(raw_tail: &str) -> (r: String)
    ensures
        r@ == exit_log_section_of(trim(raw_tail@)),
{
    let chars = chars_of(raw_tail);
    let (a, b) = trim_range(&chars);
    let tail = raw_tail.substring_char(a, b);
    if a == b {
        return String::new();
    }
    let lead = "\n\nLast log output:\n";
    proof {
        reveal_strlit("\n\nLast log output:\n");
        assert(lead@ =~= seq!['\n', '\n', 'L', 'a', 's', 't', ' ', 'l', 'o', 'g', ' ', 'o', 'u', 't', 'p', 'u', 't', ':', '\n']);
    }
    let r = String::from_str(lead).concat(tail);
    proof {
        assert(r@ =~= exit_log_section_of(trim(raw_tail@)));
    }
    r
}

} // verus!
