//! Which processes are hosts, and which are helpers worth tracking.
use vstd::prelude::*;

use crate::model::{Category, ProcessInfo};
use crate::text::{self, chars_of, contains, lower_chars, same, to_lower};

verus! {

// ---------------------------------------------------------------------------------------------
// Models
// ---------------------------------------------------------------------------------------------
/// Some text of `list` is `name`.
pub open spec fn one_of(name: Seq<char>, list: Seq<Seq<char>>) -> bool {
    exists|i: int| 0 <= i < list.len() && name == #[trigger] list[i]
}

/// Some text of `list` stands in `command`.
pub open spec fn has_one_of(command: Seq<char>, list: Seq<Seq<char>>) -> bool {
    exists|i: int| 0 <= i < list.len() && text::has(command, #[trigger] list[i])
}

/// The executables whose command line and CPU time a snapshot asks for.
pub open spec fn relevant_names() -> Seq<Seq<char>> {
    seq![
        "chatgpt.exe"@,
        "codex.exe"@,
        "codex-code-mode-host.exe"@,
        "node_repl.exe"@,
        "chrome.exe"@,
        "msedge.exe"@,
        "chromium.exe"@,
        "headless_shell.exe"@,
        "node.exe"@,
        "python.exe"@,
        "pythonw.exe"@,
        "uvx.exe"@,
        "npx.exe"@,
    ]
}

/// The places that a packaged or an installed desktop application runs from.
pub open spec fn install_markers() -> Seq<Seq<char>> {
    seq![
        "openai.codex_"@,
        "openai.chatgpt_"@,
        "\\openai\\codex\\"@,
        "\\openai\\chatgpt\\"@,
    ]
}

/// The executables that belong to the application itself.
pub open spec fn direct_names() -> Seq<Seq<char>> {
    seq!["chatgpt.exe"@, "codex.exe"@, "codex-code-mode-host.exe"@, "node_repl.exe"@]
}

/// The places that the application's own processes run from.
pub open spec fn direct_markers() -> Seq<Seq<char>> {
    install_markers() + seq!["\\codex\\runtimes\\"@, "\\codex\\web\\codex"@]
}

/// The executables of browsers.
pub open spec fn browser_names() -> Seq<Seq<char>> {
    seq!["chrome.exe"@, "msedge.exe"@, "chromium.exe"@, "headless_shell.exe"@]
}

/// What shows that a browser is driven by a program.
pub open spec fn browser_markers() -> Seq<Seq<char>> {
    seq![
        "--remote-debugging-port"@,
        "--remote-debugging-pipe"@,
        "playwright"@,
        "puppeteer"@,
        "codex"@,
        "chatgpt"@,
    ]
}

/// The executables that run tool servers.
pub open spec fn runtime_names() -> Seq<Seq<char>> {
    seq![
        "node.exe"@,
        "node_repl.exe"@,
        "python.exe"@,
        "pythonw.exe"@,
        "uvx.exe"@,
        "npx.exe"@,
    ]
}

/// What shows by itself that a runtime serves tools.
pub open spec fn tool_markers() -> Seq<Seq<char>> {
    seq![
        "@agentmemory\\mcp"@,
        "@agentmemory/mcp"@,
        "@modelcontextprotocol"@,
        "playwright-mcp"@,
        "\\openai\\codex\\runtimes\\cua_node\\"@,
    ]
}

/// The command line shows that a runtime serves tools.
pub open spec fn serves_tools(command: Seq<char>) -> bool {
    ||| has_one_of(command, tool_markers())
    ||| text::has(command, "codegraph"@) && text::has(command, "serve --mcp"@)
    ||| text::has(command, "kernel.js"@) && text::has(command, "--session-id"@)
    ||| text::has(command, "browser"@) && text::has(command, "--mcp"@)
}

/// A process with this name and this command line, both in small letters, is a host: the Codex
/// application server, or the main process of the desktop application.
pub open spec fn host_rule(name: Seq<char>, command: Seq<char>) -> bool {
    ||| name == "codex.exe"@ && text::has(command, "app-server"@)
    ||| name == "chatgpt.exe"@ && !text::has(command, " --type="@) && has_one_of(
        command,
        install_markers(),
    )
}

/// What a process with this name and this command line, both in small letters, is tracked as.
pub open spec fn category_rule(name: Seq<char>, command: Seq<char>) -> Option<Category> {
    if one_of(name, direct_names()) && has_one_of(command, direct_markers()) {
        Some(Category::Direct)
    } else if one_of(name, browser_names()) && has_one_of(command, browser_markers()) {
        Some(Category::Browser)
    } else if one_of(name, runtime_names()) && serves_tools(command) {
        Some(Category::ToolServer)
    } else {
        None
    }
}

/// The process is a host.
pub open spec fn hosts(process: ProcessInfo) -> bool {
    host_rule(text::ascii_lower(process.name@), text::ascii_lower(process.command_line@))
}

/// What the process is tracked as.
pub open spec fn category_of(process: ProcessInfo) -> Option<Category> {
    category_rule(text::ascii_lower(process.name@), text::ascii_lower(process.command_line@))
}

// ---------------------------------------------------------------------------------------------
// Functions
// ---------------------------------------------------------------------------------------------
/// Whether a snapshot asks for the command line and the CPU time of processes with this name.
pub fn is_relevant_process_name(name: &str) -> (result: bool)
    ensures
        result == one_of(text::ascii_lower(name@), relevant_names()),
{
    let lowered = lower_chars(name);
    let s = lowered.as_slice();
    let result = same(s, "chatgpt.exe") || same(s, "codex.exe") || same(
        s,
        "codex-code-mode-host.exe",
    ) || same(s, "node_repl.exe") || same(s, "chrome.exe") || same(s, "msedge.exe") || same(
        s,
        "chromium.exe",
    ) || same(s, "headless_shell.exe") || same(s, "node.exe") || same(s, "python.exe") || same(
        s,
        "pythonw.exe",
    ) || same(s, "uvx.exe") || same(s, "npx.exe");
    proof {
        let list = relevant_names();
        if result {
            assert(s@ == list[0] || s@ == list[1] || s@ == list[2] || s@ == list[3] || s@ == list[4]
                || s@ == list[5] || s@ == list[6] || s@ == list[7] || s@ == list[8] || s@ == list[9]
                || s@ == list[10] || s@ == list[11] || s@ == list[12]);
        }
    }
    result
}

/// The name and the command line of a process in small letters.
pub fn lower(process: &ProcessInfo) -> (result: (String, String))
    ensures
        result.0@ == text::ascii_lower(process.name@),
        result.1@ == text::ascii_lower(process.command_line@),
{
    (to_lower(process.name.as_str()), to_lower(process.command_line.as_str()))
}

/// Whether the command line shows a place that a desktop application runs from.
fn has_install_marker(command: &[char]) -> (result: bool)
    ensures
        result == has_one_of(command@, install_markers()),
{
    let result = contains(command, "openai.codex_") || contains(command, "openai.chatgpt_")
        || contains(command, "\\openai\\codex\\") || contains(command, "\\openai\\chatgpt\\");
    proof {
        let list = install_markers();
        if result {
            assert(text::has(command@, list[0]) || text::has(command@, list[1]) || text::has(
                command@,
                list[2],
            ) || text::has(command@, list[3]));
        }
    }
    result
}

/// Whether the process is a host.
pub fn is_host(process: &ProcessInfo) -> (result: bool)
    ensures
        result == hosts(*process),
{
    let (name_text, command_text) = lower(process);
    let name = chars_of(name_text.as_str());
    let command = chars_of(command_text.as_str());
    if same(name.as_slice(), "codex.exe") && contains(command.as_slice(), "app-server") {
        return true;
    }
    same(name.as_slice(), "chatgpt.exe") && !contains(command.as_slice(), " --type=")
        && has_install_marker(command.as_slice())
}

/// Whether a process with this name and command line belongs to the application itself.
fn is_direct(name: &[char], command: &[char]) -> (result: bool)
    ensures
        result == (one_of(name@, direct_names()) && has_one_of(command@, direct_markers())),
{
    let named = same(name, "chatgpt.exe") || same(name, "codex.exe") || same(
        name,
        "codex-code-mode-host.exe",
    ) || same(name, "node_repl.exe");
    let installed = has_install_marker(command);
    let marked = installed || contains(command, "\\codex\\runtimes\\") || contains(
        command,
        "\\codex\\web\\codex",
    );
    proof {
        let names = direct_names();
        if named {
            assert(name@ == names[0] || name@ == names[1] || name@ == names[2] || name@
                == names[3]);
        }
        let base = install_markers();
        let list = direct_markers();
        assert(list[4] == "\\codex\\runtimes\\"@ && list[5] == "\\codex\\web\\codex"@);
        if installed {
            let i = choose|i: int| 0 <= i < base.len() && text::has(command@, #[trigger] base[i]);
            assert(text::has(command@, list[i]));
        }
        if marked && !installed {
            assert(text::has(command@, list[4]) || text::has(command@, list[5]));
        }
        if has_one_of(command@, list) && !marked {
            let i = choose|i: int| 0 <= i < list.len() && text::has(command@, #[trigger] list[i]);
            if i < 4 {
                assert(text::has(command@, base[i]));
            }
        }
    }
    named && marked
}

/// Whether a process with this name and command line is a browser driven by a program.
fn is_driven_browser(name: &[char], command: &[char]) -> (result: bool)
    ensures
        result == (one_of(name@, browser_names()) && has_one_of(command@, browser_markers())),
{
    let named = same(name, "chrome.exe") || same(name, "msedge.exe") || same(name, "chromium.exe")
        || same(name, "headless_shell.exe");
    let marked = contains(command, "--remote-debugging-port") || contains(
        command,
        "--remote-debugging-pipe",
    ) || contains(command, "playwright") || contains(command, "puppeteer") || contains(
        command,
        "codex",
    ) || contains(command, "chatgpt");
    proof {
        let names = browser_names();
        if named {
            assert(name@ == names[0] || name@ == names[1] || name@ == names[2] || name@
                == names[3]);
        }
        let list = browser_markers();
        if marked {
            assert(text::has(command@, list[0]) || text::has(command@, list[1]) || text::has(
                command@,
                list[2],
            ) || text::has(command@, list[3]) || text::has(command@, list[4]) || text::has(
                command@,
                list[5],
            ));
        }
    }
    named && marked
}

/// Whether a process with this name and command line is a runtime that serves tools.
fn is_tool_server(name: &[char], command: &[char]) -> (result: bool)
    ensures
        result == (one_of(name@, runtime_names()) && serves_tools(command@)),
{
    let named = same(name, "node.exe") || same(name, "node_repl.exe") || same(name, "python.exe")
        || same(name, "pythonw.exe") || same(name, "uvx.exe") || same(name, "npx.exe");
    let marked = contains(command, "@agentmemory\\mcp") || contains(command, "@agentmemory/mcp")
        || contains(command, "@modelcontextprotocol") || contains(command, "playwright-mcp")
        || contains(command, "\\openai\\codex\\runtimes\\cua_node\\");
    proof {
        let names = runtime_names();
        if named {
            assert(name@ == names[0] || name@ == names[1] || name@ == names[2] || name@ == names[3]
                || name@ == names[4] || name@ == names[5]);
        }
        let list = tool_markers();
        if marked {
            assert(text::has(command@, list[0]) || text::has(command@, list[1]) || text::has(
                command@,
                list[2],
            ) || text::has(command@, list[3]) || text::has(command@, list[4]));
        }
    }
    named && (marked || (contains(command, "codegraph") && contains(command, "serve --mcp")) || (
    contains(command, "kernel.js") && contains(command, "--session-id")) || (contains(
        command,
        "browser",
    ) && contains(command, "--mcp")))
}

/// What the process is tracked as.
pub fn classify(process: &ProcessInfo) -> (result: Option<Category>)
    ensures
        result == category_of(*process),
{
    let (name_text, command_text) = lower(process);
    let name = chars_of(name_text.as_str());
    let command = chars_of(command_text.as_str());
    if is_direct(name.as_slice(), command.as_slice()) {
        Some(Category::Direct)
    } else if is_driven_browser(name.as_slice(), command.as_slice()) {
        Some(Category::Browser)
    } else if is_tool_server(name.as_slice(), command.as_slice()) {
        Some(Category::ToolServer)
    } else {
        None
    }
}

// ---------------------------------------------------------------------------------------------
// Laws
// ---------------------------------------------------------------------------------------------
/// Neither the letter case of the name nor that of the command line decides anything.
pub proof fn law_letter_case_is_ignored(a: ProcessInfo, b: ProcessInfo)
    requires
        text::ascii_lower(a.name@) == text::ascii_lower(b.name@),
        text::ascii_lower(a.command_line@) == text::ascii_lower(b.command_line@),
    ensures
        hosts(a) == hosts(b),
        category_of(a) == category_of(b),
{
}

/// Without a command line there is neither a host nor a tracked process: a name alone is no
/// evidence.
pub proof fn law_name_alone_is_no_evidence(process: ProcessInfo)
    requires
        process.command_line@.len() == 0,
    ensures
        !hosts(process),
        category_of(process) is None,
{
    let command = text::ascii_lower(process.command_line@);
    assert(command.len() == 0);
    assert forall|needle: Seq<char>| needle.len() > 0 implies !text::has(command, needle) by {}
    reveal_strlit("app-server");
    reveal_strlit("openai.codex_");
    reveal_strlit("openai.chatgpt_");
    reveal_strlit("\\openai\\codex\\");
    reveal_strlit("\\openai\\chatgpt\\");
    reveal_strlit("\\codex\\runtimes\\");
    reveal_strlit("\\codex\\web\\codex");
    reveal_strlit("--remote-debugging-port");
    reveal_strlit("--remote-debugging-pipe");
    reveal_strlit("playwright");
    reveal_strlit("puppeteer");
    reveal_strlit("codex");
    reveal_strlit("chatgpt");
    reveal_strlit("@agentmemory\\mcp");
    reveal_strlit("@agentmemory/mcp");
    reveal_strlit("@modelcontextprotocol");
    reveal_strlit("playwright-mcp");
    reveal_strlit("\\openai\\codex\\runtimes\\cua_node\\");
    reveal_strlit("codegraph");
    reveal_strlit("kernel.js");
    reveal_strlit("browser");
    assert forall|i: int| 0 <= i < install_markers().len() implies (
    #[trigger] install_markers()[i]).len() > 0 by {}
    assert forall|i: int| 0 <= i < direct_markers().len() implies (
    #[trigger] direct_markers()[i]).len() > 0 by {}
    assert forall|i: int| 0 <= i < browser_markers().len() implies (
    #[trigger] browser_markers()[i]).len() > 0 by {}
    assert forall|i: int| 0 <= i < tool_markers().len() implies (
    #[trigger] tool_markers()[i]).len() > 0 by {}
}

/// A process whose details the snapshot does not ask for is neither a host nor tracked.
pub proof fn law_tracked_names_are_relevant(process: ProcessInfo)
    requires
        hosts(process) || category_of(process) is Some,
    ensures
        one_of(text::ascii_lower(process.name@), relevant_names()),
{
    let name = text::ascii_lower(process.name@);
    let list = relevant_names();
    let direct = direct_names();
    let browsers = browser_names();
    let runtimes = runtime_names();
    assert(list[0] == direct[0] && list[1] == direct[1] && list[2] == direct[2] && list[3]
        == direct[3]);
    assert(list[4] == browsers[0] && list[5] == browsers[1] && list[6] == browsers[2] && list[7]
        == browsers[3]);
    assert(list[8] == runtimes[0] && list[3] == runtimes[1] && list[9] == runtimes[2] && list[10]
        == runtimes[3] && list[11] == runtimes[4] && list[12] == runtimes[5]);
}

/// The name is one of the application's own executables.
spec fn is_own_name(name: Seq<char>) -> bool {
    name == "chatgpt.exe"@ || name == "codex.exe"@ || name == "codex-code-mode-host.exe"@ || name
        == "node_repl.exe"@
}

/// The name is one of the browsers.
spec fn is_browser_name(name: Seq<char>) -> bool {
    name == "chrome.exe"@ || name == "msedge.exe"@ || name == "chromium.exe"@ || name
        == "headless_shell.exe"@
}

/// The name is one of the runtimes.
spec fn is_runtime_name(name: Seq<char>) -> bool {
    name == "node.exe"@ || name == "node_repl.exe"@ || name == "python.exe"@ || name
        == "pythonw.exe"@ || name == "uvx.exe"@ || name == "npx.exe"@
}

/// The command line holds a place that the desktop application is installed at.
spec fn holds_install_place(command: Seq<char>) -> bool {
    text::has(command, "openai.codex_"@) || text::has(command, "openai.chatgpt_"@) || text::has(
        command,
        "\\openai\\codex\\"@,
    ) || text::has(command, "\\openai\\chatgpt\\"@)
}

/// The command line holds a place that the application's own processes run from.
spec fn holds_own_place(command: Seq<char>) -> bool {
    holds_install_place(command) || text::has(command, "\\codex\\runtimes\\"@) || text::has(
        command,
        "\\codex\\web\\codex"@,
    )
}

/// The command line shows that a browser is driven.
spec fn holds_browser_marker(command: Seq<char>) -> bool {
    text::has(command, "--remote-debugging-port"@) || text::has(command, "--remote-debugging-pipe"@)
        || text::has(command, "playwright"@) || text::has(command, "puppeteer"@) || text::has(
        command,
        "codex"@,
    ) || text::has(command, "chatgpt"@)
}

/// The command line shows that tools are served.
spec fn holds_tool_marker(command: Seq<char>) -> bool {
    (text::has(command, "codegraph"@) && text::has(command, "serve --mcp"@)) || text::has(
        command,
        "@agentmemory\\mcp"@,
    ) || text::has(command, "@agentmemory/mcp"@) || text::has(command, "@modelcontextprotocol"@)
        || text::has(command, "playwright-mcp"@) || text::has(
        command,
        "\\openai\\codex\\runtimes\\cua_node\\"@,
    ) || (text::has(command, "kernel.js"@) && text::has(command, "--session-id"@)) || (text::has(
        command,
        "browser"@,
    ) && text::has(command, "--mcp"@))
}

proof fn lemma_lists_hold_what_they_name(s: Seq<char>)
    ensures
        one_of(s, direct_names()) <==> is_own_name(s),
        one_of(s, browser_names()) <==> is_browser_name(s),
        one_of(s, runtime_names()) <==> is_runtime_name(s),
        has_one_of(s, install_markers()) <==> holds_install_place(s),
        has_one_of(s, direct_markers()) <==> holds_own_place(s),
        has_one_of(s, browser_markers()) <==> holds_browser_marker(s),
        serves_tools(s) <==> holds_tool_marker(s),
{
    let own = direct_names();
    assert(s == own[0] || s == own[1] || s == own[2] || s == own[3] <==> is_own_name(s));
    let browsers = browser_names();
    assert(s == browsers[0] || s == browsers[1] || s == browsers[2] || s == browsers[3]
        <==> is_browser_name(s));
    let runtimes = runtime_names();
    assert(s == runtimes[0] || s == runtimes[1] || s == runtimes[2] || s == runtimes[3] || s
        == runtimes[4] || s == runtimes[5] <==> is_runtime_name(s));
    let places = install_markers();
    assert(text::has(s, places[0]) || text::has(s, places[1]) || text::has(s, places[2])
        || text::has(s, places[3]) <==> holds_install_place(s));
    let all = direct_markers();
    assert(text::has(s, all[0]) || text::has(s, all[1]) || text::has(s, all[2]) || text::has(
        s,
        all[3],
    ) || text::has(s, all[4]) || text::has(s, all[5]) <==> holds_own_place(s));
    let driven = browser_markers();
    assert(text::has(s, driven[0]) || text::has(s, driven[1]) || text::has(s, driven[2])
        || text::has(s, driven[3]) || text::has(s, driven[4]) || text::has(s, driven[5])
        <==> holds_browser_marker(s));
    let tools = tool_markers();
    assert(text::has(s, tools[0]) || text::has(s, tools[1]) || text::has(s, tools[2]) || text::has(
        s,
        tools[3],
    ) || text::has(s, tools[4]) <==> has_one_of(s, tools));
}

/// A process under one of the application's own names is the application's own where its command
/// line holds one of the application's places, and nothing else is.
pub proof fn law_own_processes_are_direct(process: ProcessInfo)
    ensures
        ({
            let name = text::ascii_lower(process.name@);
            let command = text::ascii_lower(process.command_line@);
            category_of(process) == Some(Category::Direct) <==> (name == "chatgpt.exe"@ || name
                == "codex.exe"@ || name == "codex-code-mode-host.exe"@ || name
                == "node_repl.exe"@) && (text::has(command, "openai.codex_"@) || text::has(
                command,
                "openai.chatgpt_"@,
            ) || text::has(command, "\\openai\\codex\\"@) || text::has(
                command,
                "\\openai\\chatgpt\\"@,
            ) || text::has(command, "\\codex\\runtimes\\"@) || text::has(
                command,
                "\\codex\\web\\codex"@,
            ))
        }),
{
    lemma_lists_hold_what_they_name(text::ascii_lower(process.name@));
    lemma_lists_hold_what_they_name(text::ascii_lower(process.command_line@));
}

/// No name is that of the application itself and of a browser.
proof fn lemma_browsers_are_apart(name: Seq<char>)
    requires
        is_browser_name(name),
    ensures
        !is_own_name(name),
        !is_runtime_name(name),
{
    reveal_strlit("chatgpt.exe");
    reveal_strlit("codex.exe");
    reveal_strlit("codex-code-mode-host.exe");
    reveal_strlit("node_repl.exe");
    reveal_strlit("node.exe");
    reveal_strlit("python.exe");
    reveal_strlit("pythonw.exe");
    reveal_strlit("uvx.exe");
    reveal_strlit("npx.exe");
    reveal_strlit("chrome.exe");
    reveal_strlit("msedge.exe");
    reveal_strlit("chromium.exe");
    reveal_strlit("headless_shell.exe");
    assert("chatgpt.exe"@.len() == 11 && "chatgpt.exe"@[0] == 'c' && "codex.exe"@.len() == 9
        && "codex-code-mode-host.exe"@.len() == 24 && "node_repl.exe"@.len() == 13);
    assert("node.exe"@.len() == 8 && "python.exe"@.len() == 10 && "python.exe"@[0] == 'p'
        && "pythonw.exe"@.len() == 11 && "uvx.exe"@.len() == 7 && "npx.exe"@.len() == 7);
    assert("chrome.exe"@.len() == 10 && "chrome.exe"@[0] == 'c' && "msedge.exe"@.len() == 10
        && "msedge.exe"@[0] == 'm' && "chromium.exe"@.len() == 12 && "headless_shell.exe"@.len()
        == 18);
}

/// A browser is tracked as one exactly where its name is a browser's and its command line shows
/// that it is driven.
pub proof fn law_driven_browsers_are_browsers(process: ProcessInfo)
    ensures
        ({
            let name = text::ascii_lower(process.name@);
            let command = text::ascii_lower(process.command_line@);
            category_of(process) == Some(Category::Browser) <==> (name == "chrome.exe"@ || name
                == "msedge.exe"@ || name == "chromium.exe"@ || name == "headless_shell.exe"@) && (
            text::has(command, "--remote-debugging-port"@) || text::has(
                command,
                "--remote-debugging-pipe"@,
            ) || text::has(command, "playwright"@) || text::has(command, "puppeteer"@)
                || text::has(command, "codex"@) || text::has(command, "chatgpt"@))
        }),
{
    let name = text::ascii_lower(process.name@);
    lemma_lists_hold_what_they_name(name);
    lemma_lists_hold_what_they_name(text::ascii_lower(process.command_line@));
    if is_browser_name(name) {
        lemma_browsers_are_apart(name);
    }
}

/// A tool server runs under the name of a runtime, and its command line shows that it serves
/// tools; such a process is tracked as one unless it is the application's own.
pub proof fn law_tool_servers_serve_tools(process: ProcessInfo)
    ensures
        ({
            let name = text::ascii_lower(process.name@);
            let command = text::ascii_lower(process.command_line@);
            category_of(process) == Some(Category::ToolServer) <==> category_of(process) != Some(
                Category::Direct,
            ) && (name == "node.exe"@ || name == "node_repl.exe"@ || name == "python.exe"@ || name
                == "pythonw.exe"@ || name == "uvx.exe"@ || name == "npx.exe"@) && ((text::has(
                command,
                "codegraph"@,
            ) && text::has(command, "serve --mcp"@)) || text::has(command, "@agentmemory\\mcp"@)
                || text::has(command, "@agentmemory/mcp"@) || text::has(
                command,
                "@modelcontextprotocol"@,
            ) || text::has(command, "playwright-mcp"@) || text::has(
                command,
                "\\openai\\codex\\runtimes\\cua_node\\"@,
            ) || (text::has(command, "kernel.js"@) && text::has(command, "--session-id"@)) || (
            text::has(command, "browser"@) && text::has(command, "--mcp"@)))
        }),
{
    let name = text::ascii_lower(process.name@);
    lemma_lists_hold_what_they_name(name);
    lemma_lists_hold_what_they_name(text::ascii_lower(process.command_line@));
    if is_browser_name(name) {
        lemma_browsers_are_apart(name);
    }
}

/// A host is the Codex application server, or the main process of the installed desktop
/// application, and nothing else.
pub proof fn law_hosts_are_the_applications(process: ProcessInfo)
    ensures
        ({
            let name = text::ascii_lower(process.name@);
            let command = text::ascii_lower(process.command_line@);
            hosts(process) <==> (name == "codex.exe"@ && text::has(command, "app-server"@)) || (name
                == "chatgpt.exe"@ && !text::has(command, " --type="@) && (text::has(
                command,
                "openai.codex_"@,
            ) || text::has(command, "openai.chatgpt_"@) || text::has(
                command,
                "\\openai\\codex\\"@,
            ) || text::has(command, "\\openai\\chatgpt\\"@)))
        }),
{
    lemma_lists_hold_what_they_name(text::ascii_lower(process.command_line@));
}

/// The names whose details a snapshot asks for are the application's own, the browsers' and the
/// runtimes', and no others.
pub proof fn law_relevant_names_are_those_of_the_categories(name: Seq<char>)
    ensures
        one_of(name, relevant_names()) <==> name == "chatgpt.exe"@ || name == "codex.exe"@ || name
            == "codex-code-mode-host.exe"@ || name == "node_repl.exe"@ || name == "chrome.exe"@
            || name == "msedge.exe"@ || name == "chromium.exe"@ || name == "headless_shell.exe"@
            || name == "node.exe"@ || name == "python.exe"@ || name == "pythonw.exe"@ || name
            == "uvx.exe"@ || name == "npx.exe"@,
{
    let list = relevant_names();
    assert(name == list[0] || name == list[1] || name == list[2] || name == list[3] || name
        == list[4] || name == list[5] || name == list[6] || name == list[7] || name == list[8]
        || name == list[9] || name == list[10] || name == list[11] || name == list[12]
        <==> is_own_name(name) || is_browser_name(name) || is_runtime_name(name));
}

} // verus!
