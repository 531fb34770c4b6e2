//! Reads the services of a docker compose file: each service node (a line at
//! the indentation of the first indented line) names a container, and its
//! `SERVER_PORT=` environment line gives the port it serves on.
use vstd::prelude::*;

use crate::conf::ConfigServer;
use crate::text::{
    chars_of, contains, contains_exec, ends_lines, lemma_lines_concat, lemma_lines_single, lines, parse_i32, parse_i32_exec, remove_all, remove_all_exec,
    split_lines, string_of, trim, trim_chars,
};

verus! {

/// `serde_yaml::Error`, carried opaquely.
#[verifier::external_type_specification]
#[verifier::external_body]
pub struct ExYamlError(serde_yaml::Error);

/// A container of a docker compose project and the port it serves on.
#[derive(Debug, PartialEq)]
pub struct DockerComposeService {
    pub name: String,
    pub yml: String,
    pub ip: String,
    pub port: i32,
}

/// What a `DockerComposeService` holds, as character sequences.
pub ghost struct ServiceModel {
    pub name: Seq<char>,
    pub yml: Seq<char>,
    pub ip: Seq<char>,
    pub port: i32,
}

impl View for DockerComposeService {
    type V = ServiceModel;

    open spec fn view(&self) -> ServiceModel {
        ServiceModel { name: self.name@, yml: self.yml@, ip: self.ip@, port: self.port }
    }
}

impl DockerComposeService {
    pub fn new(name: String, yml: String, ip: String, port: i32) -> (r: Self)
        ensures
            r.name == name,
            r.yml == yml,
            r.ip == ip,
            r.port == port,
    {
        Self { name, yml, ip, port }
    }
}

pub open spec fn service_model(name: Seq<char>, yml: Seq<char>, ip: Seq<char>, port: i32) -> ServiceModel {
    ServiceModel { name, yml, ip, port }
}

// ---------------------------------------------------------------------------
// Indentation
// ---------------------------------------------------------------------------

/// The number of spaces at the start of `s`.
pub open spec fn leading_spaces(s: Seq<char>) -> nat
    decreases s.len(),
{
    if s.len() > 0 && s[0] == ' ' {
        1 + leading_spaces(s.drop_first())
    } else {
        0
    }
}

/// The number of spaces anywhere in `s`.
pub open spec fn count_spaces(s: Seq<char>) -> nat
    decreases s.len(),
{
    if s.len() == 0 {
        0
    } else {
        count_spaces(s.drop_last()) + if s.last() == ' ' {
            1nat
        } else {
            0nat
        }
    }
}

/// The line starts with a space and is not blank.
pub open spec fn is_indented(line: Seq<char>) -> bool {
    line.len() > 0 && line[0] == ' ' && trim(line).len() > 0
}

/// The indentation of a line: its leading spaces when it is indented, else 0.
pub open spec fn indent_len(line: Seq<char>) -> nat {
    if is_indented(line) {
        leading_spaces(line)
    } else {
        0
    }
}

/// The node indentation of a file: the number of spaces in the first indented
/// line of `ls` (all of them, not only the leading ones), or 0 when no line is
/// indented.
pub open spec fn node_indent_of(ls: Seq<Seq<char>>) -> nat
    decreases ls.len(),
{
    if ls.len() == 0 {
        0
    } else if is_indented(ls[0]) {
        count_spaces(ls[0])
    } else {
        node_indent_of(ls.drop_first())
    }
}

pub open spec fn node_indent_len(content: Seq<char>) -> nat {
    node_indent_of(lines(content))
}

proof fn lemma_leading_spaces_bound(s: Seq<char>)
    ensures
        leading_spaces(s) <= s.len(),
    decreases s.len(),
{
    if s.len() > 0 {
        lemma_leading_spaces_bound(s.drop_first());
    }
}

/// The number of spaces in a line.
fn count_spaces_exec(line: &Vec<char>) -> (r: usize)
    ensures
        r == count_spaces(line@),
{
    let mut n: usize = 0;
    let mut i: usize = 0;
    assert(line@.take(0) =~= Seq::<char>::empty());
    while i < line.len()
        invariant
            i <= line@.len(),
            n <= i,
            n == count_spaces(line@.take(i as int)),
        decreases line@.len() - i,
    {
        assert(line@.take(i + 1).drop_last() =~= line@.take(i as int));
        if line[i] == ' ' {
            n = n + 1;
        }
        i += 1;
    }
    assert(line@.take(i as int) =~= line@);
    n
}

/// Whether a line is indented.
fn is_indented_exec(line: &Vec<char>) -> (b: bool)
    ensures
        b == is_indented(line@),
{
    line.len() > 0 && line[0] == ' ' && trim_chars(line).len() > 0
}

/// The number of leading spaces of a line.
fn leading_spaces_exec(line: &Vec<char>) -> (r: usize)
    ensures
        r == leading_spaces(line@),
{
    let mut i: usize = 0;
    assert(line@.skip(0) =~= line@);
    while i < line.len() && line[i] == ' '
        invariant
            i <= line@.len(),
            leading_spaces(line@) == i + leading_spaces(line@.skip(i as int)),
        decreases line@.len() - i,
    {
        assert(line@.skip(i as int).drop_first() =~= line@.skip(i + 1));
        i += 1;
    }
    i
}

/// The indentation of a line.
fn indent_len_exec(line: &Vec<char>) -> (r: usize)
    ensures
        r == indent_len(line@),
{
    if is_indented_exec(line) {
        leading_spaces_exec(line)
    } else {
        0
    }
}

/// The views of a list of lines.
pub open spec fn line_models(ls: Seq<Vec<char>>) -> Seq<Seq<char>> {
    ls.map_values(|l: Vec<char>| l@)
}

/// The node indentation of a list of lines.
fn node_indent_exec(ls: &Vec<Vec<char>>) -> (r: usize)
    ensures
        r == node_indent_of(line_models(ls@)),
{
    let ghost all = line_models(ls@);
    let mut i: usize = 0;
    assert(all.skip(0) =~= all);
    while i < ls.len()
        invariant
            i <= ls@.len(),
            all == line_models(ls@),
            node_indent_of(all) == node_indent_of(all.skip(i as int)),
        decreases ls@.len() - i,
    {
        assert(all.skip(i as int)[0] == ls@[i as int]@);
        if is_indented_exec(&ls[i]) {
            return count_spaces_exec(&ls[i]);
        }
        assert(all.skip(i as int).drop_first() =~= all.skip(i + 1));
        i += 1;
    }
    0
}

fn lines_of(content: &String) -> (ls: Vec<Vec<char>>)
    ensures
        line_models(ls@) == lines(content@),
{
    let text = chars_of(content.as_str());
    let ls = split_lines(&text);
    assert(line_models(ls@) =~= lines(content@));
    ls
}

/// The node indentation of a docker compose file.
pub fn get_node_indent_len(content: &String) -> (r: i32)
    requires
        node_indent_len(content@) <= i32::MAX,
    ensures
        r == node_indent_len(content@),
{
    let ls = lines_of(content);
    node_indent_exec(&ls) as i32
}

/// The indentation of one line.
pub fn get_indent_len(line: &String) -> (r: i32)
    requires
        is_indented(line@) ==> leading_spaces(line@) <= i32::MAX,
    ensures
        r == indent_len(line@),
{
    let text = chars_of(line.as_str());
    indent_len_exec(&text) as i32
}

// ---------------------------------------------------------------------------
// Services
// ---------------------------------------------------------------------------

/// The port text of an environment line: without any `-`, without
/// `SERVER_PORT=`, trimmed.
pub open spec fn port_text(line: Seq<char>) -> Seq<char> {
    trim(remove_all(remove_all(line, seq!['-']), "SERVER_PORT="@))
}

/// A service node line names the container with its colons removed, trimmed.
pub open spec fn node_name(line: Seq<char>) -> Seq<char> {
    trim(remove_all(line, seq![':']))
}

/// An indented line that mentions `SERVER_PORT`.
pub open spec fn is_port_line(line: Seq<char>) -> bool {
    indent_len(line) != 0 && contains(line, "SERVER_PORT"@)
}

/// The state while reading a file: the services found so far and the name of
/// the node whose port is still to come (empty when none).
pub ghost struct ParseState {
    pub services: Seq<ServiceModel>,
    pub name: Seq<char>,
}

/// One line of the file read in `st`.
pub open spec fn parse_line(
    st: ParseState,
    line: Seq<char>,
    node: int,
    yml: Seq<char>,
    ip: Seq<char>,
) -> ParseState {
    let li = indent_len(line);
    if li == 0 {
        st
    } else {
        let after_node = if li == node {
            ParseState {
                services: if st.name.len() > 0 {
                    st.services.push(service_model(st.name, yml, ip, 0))
                } else {
                    st.services
                },
                name: node_name(line),
            }
        } else {
            st
        };
        if contains(line, "SERVER_PORT"@) {
            ParseState {
                services: after_node.services.push(
                    service_model(after_node.name, yml, ip, parse_i32(port_text(line))->0),
                ),
                name: Seq::empty(),
            }
        } else {
            after_node
        }
    }
}

/// The first `n` lines of `ls` read from the empty state.
pub open spec fn parse_lines(
    ls: Seq<Seq<char>>,
    n: int,
    node: int,
    yml: Seq<char>,
    ip: Seq<char>,
) -> ParseState
    decreases n,
{
    if n <= 0 {
        ParseState { services: Seq::empty(), name: Seq::empty() }
    } else {
        parse_line(parse_lines(ls, n - 1, node, yml, ip), ls[n - 1], node, yml, ip)
    }
}

/// The services of a docker compose file `content` named `yml` on the server
/// at `ip`, in the order their lines appear.
pub open spec fn parse_services(content: Seq<char>, yml: Seq<char>, ip: Seq<char>) -> Seq<
    ServiceModel,
> {
    let ls = lines(content);
    parse_lines(ls, ls.len() as int, node_indent_len(content) as int, yml, ip).services
}

/// The file can be read without failing: its indentations fit an `i32`, and
/// every `SERVER_PORT` line holds a port that parses as an `i32`.
pub open spec fn parsable(content: Seq<char>) -> bool {
    let ls = lines(content);
    &&& node_indent_len(content) <= i32::MAX
    &&& forall|j: int|
        0 <= j < ls.len() && is_indented(#[trigger] ls[j]) ==> leading_spaces(ls[j]) <= i32::MAX
    &&& forall|j: int|
        0 <= j < ls.len() && #[trigger] is_port_line(ls[j]) ==> parse_i32(port_text(ls[j])) is Some
}

/// The views of a list of services.
pub open spec fn service_models(v: Seq<DockerComposeService>) -> Seq<ServiceModel> {
    v.map_values(|s: DockerComposeService| s@)
}

/// The port text of a line.
fn port_text_exec(line: &Vec<char>) -> (r: Vec<char>)
    ensures
        r@ == port_text(line@),
{
    let dash = vec!['-'];
    assert(dash@ =~= seq!['-']);
    let key = chars_of("SERVER_PORT=");
    let without_dash = remove_all_exec(line, &dash);
    let rest = remove_all_exec(&without_dash, &key);
    trim_chars(&rest)
}

/// Whether a line is an indented line mentioning `SERVER_PORT`.
fn is_port_line_exec(line: &Vec<char>) -> (b: bool)
    ensures
        b == is_port_line(line@),
{
    let key = chars_of("SERVER_PORT");
    indent_len_exec(line) != 0 && contains_exec(line, &key)
}

/// Whether `parse` accepts the file (where it does not, reading it fails on an
/// indentation that does not fit an `i32` or on a port that is no number).
pub fn is_parsable(content: &String) -> (b: bool)
    ensures
        b == parsable(content@),
{
    let ls = lines_of(content);
    let ghost all = lines(content@);
    if node_indent_exec(&ls) > 2147483647 {
        return false;
    }
    let mut i: usize = 0;
    while i < ls.len()
        invariant
            i <= ls@.len() == all.len(),
            all == lines(content@),
            line_models(ls@) == all,
            forall|k: int|
                0 <= k < i && is_indented(#[trigger] all[k]) ==> leading_spaces(all[k])
                    <= i32::MAX,
            forall|k: int|
                0 <= k < i && #[trigger] is_port_line(all[k]) ==> parse_i32(port_text(all[k])) is Some,
        decreases ls@.len() - i,
    {
        assert(all[i as int] == ls@[i as int]@);
        if is_indented_exec(&ls[i]) && leading_spaces_exec(&ls[i]) > 2147483647 {
            return false;
        }
        if is_port_line_exec(&ls[i]) {
            let text = port_text_exec(&ls[i]);
            if parse_i32_exec(&text).is_none() {
                return false;
            }
        }
        i += 1;
    }
    true
}

fn push_service(
    services: &mut Vec<DockerComposeService>,
    name: &Vec<char>,
    yml: &String,
    ip: &String,
    port: i32,
)
    ensures
        service_models(final(services)@) == service_models(old(services)@).push(
            service_model(name@, yml@, ip@, port),
        ),
{
    let s = DockerComposeService::new(string_of(name), yml.clone(), ip.clone(), port);
    services.push(s);
    assert(service_models(services@) =~= service_models(old(services)@).push(
        service_model(name@, yml@, ip@, port),
    ));
}

/// Reads the services of the docker compose file `content`, named `yml`, of
/// `server`: for every service node the container name and the port of its
/// `SERVER_PORT=` line (0 for a node that is followed by another node first),
/// each tagged with the file name and the server's address. Never fails.
pub fn parse(content: &String, yml: &String, server: &ConfigServer) -> (r: Result<
    Vec<DockerComposeService>,
    serde_yaml::Error,
>)
    requires
        parsable(content@),
    ensures
        r matches Ok(v) && service_models(v@) == parse_services(content@, yml@, server.ip@),
{
    let node = get_node_indent_len(content);
    let ls = lines_of(content);
    let ghost all = lines(content@);
    let key = chars_of("SERVER_PORT");
    let colon = vec![':'];
    assert(colon@ =~= seq![':']);
    let mut services: Vec<DockerComposeService> = Vec::new();
    let mut name: Vec<char> = Vec::new();
    let mut i: usize = 0;
    assert(service_models(services@) =~= Seq::<ServiceModel>::empty());
    while i < ls.len()
        invariant
            i <= ls@.len() == all.len(),
            all == lines(content@),
            line_models(ls@) == all,
            parsable(content@),
            0 <= node == node_indent_len(content@),
            key@ == "SERVER_PORT"@,
            colon@ == seq![':'],
            service_models(services@) == parse_lines(
                all,
                i as int,
                node as int,
                yml@,
                server.ip@,
            ).services,
            name@ == parse_lines(all, i as int, node as int, yml@, server.ip@).name,
        decreases ls@.len() - i,
    {
        let line = &ls[i];
        assert(line@ == all[i as int]);
        let li = indent_len_exec(line);
        if li != 0 {
            if li == node as usize {
                if name.len() > 0 {
                    push_service(&mut services, &name, yml, &server.ip, 0);
                }
                name = trim_chars(&remove_all_exec(line, &colon));
            }
            if contains_exec(line, &key) {
                assert(is_port_line(all[i as int]));
                let text = port_text_exec(line);
                match parse_i32_exec(&text) {
                    Some(port) => {
                        push_service(&mut services, &name, yml, &server.ip, port);
                    },
                    None => {},
                }
                name = Vec::new();
                assert(name@ =~= Seq::<char>::empty());
            }
        }
        i += 1;
    }
    Ok(services)
}

/// Every service read from a file carries the file's name and the server's
/// address.
pub proof fn lemma_services_tagged(content: Seq<char>, yml: Seq<char>, ip: Seq<char>)
    ensures
        forall|j: int|
            0 <= j < parse_services(content, yml, ip).len() ==> (#[trigger] parse_services(
                content,
                yml,
                ip,
            )[j]).yml == yml && parse_services(content, yml, ip)[j].ip == ip,
{
    let ls = lines(content);
    lemma_parse_lines_tagged(ls, ls.len() as int, node_indent_len(content) as int, yml, ip);
}

proof fn lemma_parse_lines_tagged(
    ls: Seq<Seq<char>>,
    n: int,
    node: int,
    yml: Seq<char>,
    ip: Seq<char>,
)
    ensures
        forall|j: int|
            0 <= j < parse_lines(ls, n, node, yml, ip).services.len() ==> (#[trigger] parse_lines(
                ls,
                n,
                node,
                yml,
                ip,
            ).services[j]).yml == yml && parse_lines(ls, n, node, yml, ip).services[j].ip == ip,
    decreases n,
{
    if n > 0 {
        lemma_parse_lines_tagged(ls, n - 1, node, yml, ip);
        let st = parse_lines(ls, n - 1, node, yml, ip);
        let line = ls[n - 1];
        let a = if st.name.len() > 0 {
            st.services.push(service_model(st.name, yml, ip, 0))
        } else {
            st.services
        };
        assert forall|j: int| 0 <= j < a.len() implies (#[trigger] a[j]).yml == yml && a[j].ip
            == ip by {
            if j < st.services.len() {
                assert(a[j] == st.services[j]);
            }
        }
        let li = indent_len(line);
        if li != 0 {
            let an = if li == node {
                ParseState { services: a, name: node_name(line) }
            } else {
                st
            };
            assert forall|j: int| 0 <= j < an.services.len() implies (
            #[trigger] an.services[j]).yml == yml && an.services[j].ip == ip by {
                if li != node {
                    assert(an.services[j] == st.services[j]);
                } else {
                    assert(an.services[j] == a[j]);
                }
            }
            let r = parse_lines(ls, n, node, yml, ip).services;
            assert forall|j: int| 0 <= j < r.len() implies (#[trigger] r[j]).yml == yml && r[j].ip
                == ip by {
                if j < an.services.len() {
                    assert(r[j] == an.services[j]);
                }
            }
        }
    }
}

/// The indentation of a line never exceeds its length.
pub proof fn lemma_indent_within_line(line: Seq<char>)
    ensures
        indent_len(line) <= line.len(),
{
    lemma_leading_spaces_bound(line);
}

/// The services read from a file depend on the server only through its
/// address: its account, password and compose directory play no part.
pub proof fn lemma_parse_ignores_credentials(
    content: Seq<char>,
    yml: Seq<char>,
    s1: ConfigServer,
    s2: ConfigServer,
)
    requires
        s1.ip@ == s2.ip@,
    ensures
        parse_services(content, yml, s1.ip@) == parse_services(content, yml, s2.ip@),
{
}

proof fn lemma_node_indent_skip(a: Seq<Seq<char>>, x: Seq<char>, b: Seq<Seq<char>>)
    requires
        !is_indented(x),
    ensures
        node_indent_of(a + seq![x] + b) == node_indent_of(a + b),
    decreases a.len(),
{
    if a.len() == 0 {
        assert(a + seq![x] + b =~= seq![x] + b);
        assert((seq![x] + b).drop_first() =~= b);
        assert(a + b =~= b);
    } else {
        assert((a + seq![x] + b)[0] == a[0]);
        assert((a + b)[0] == a[0]);
        if !is_indented(a[0]) {
            assert((a + seq![x] + b).drop_first() =~= a.drop_first() + seq![x] + b);
            assert((a + b).drop_first() =~= a.drop_first() + b);
            lemma_node_indent_skip(a.drop_first(), x, b);
        }
    }
}

proof fn lemma_parse_lines_same_prefix(
    l1: Seq<Seq<char>>,
    l2: Seq<Seq<char>>,
    n: int,
    node: int,
    yml: Seq<char>,
    ip: Seq<char>,
)
    requires
        0 <= n <= l1.len(),
        n <= l2.len(),
        forall|j: int| 0 <= j < n ==> l1[j] == l2[j],
    ensures
        parse_lines(l1, n, node, yml, ip) == parse_lines(l2, n, node, yml, ip),
    decreases n,
{
    if n > 0 {
        lemma_parse_lines_same_prefix(l1, l2, n - 1, node, yml, ip);
        assert(l1[n - 1] == l2[n - 1]);
    }
}

proof fn lemma_parse_lines_skip(
    a: Seq<Seq<char>>,
    x: Seq<char>,
    b: Seq<Seq<char>>,
    m: int,
    node: int,
    yml: Seq<char>,
    ip: Seq<char>,
)
    requires
        !is_indented(x),
        0 <= m <= b.len(),
    ensures
        parse_lines(a + seq![x] + b, a.len() + 1 + m, node, yml, ip) == parse_lines(
            a + b,
            a.len() + m,
            node,
            yml,
            ip,
        ),
    decreases m,
{
    let l1 = a + b;
    let l2 = a + seq![x] + b;
    let k = a.len() as int;
    if m == 0 {
        assert(l2[k] == x);
        assert forall|j: int| 0 <= j < k implies l1[j] == l2[j] by {
            assert(l1[j] == a[j]);
            assert(l2[j] == a[j]);
        }
        lemma_parse_lines_same_prefix(l1, l2, k, node, yml, ip);
    } else {
        lemma_parse_lines_skip(a, x, b, m - 1, node, yml, ip);
        assert(l2[k + m] == b[m - 1]);
        assert(l1[k + m - 1] == b[m - 1]);
    }
}

/// An unindented or blank line added to a compose file (one without line
/// breaks, between whole lines) changes neither the services read from it nor
/// whether it can be read: such lines are skipped, even where they mention
/// `SERVER_PORT`.
pub proof fn lemma_unindented_line_ignored(
    a: Seq<char>,
    x: Seq<char>,
    b: Seq<char>,
    yml: Seq<char>,
    ip: Seq<char>,
)
    requires
        ends_lines(a),
        forall|i: int| 0 <= i < x.len() ==> #[trigger] x[i] != '\n' && x[i] != '\r',
        !is_indented(x),
    ensures
        parse_services(a + x.push('\n') + b, yml, ip) == parse_services(a + b, yml, ip),
        parsable(a + x.push('\n') + b) == parsable(a + b),
{
    let c1 = a + b;
    let c2 = a + x.push('\n') + b;
    assert(c2 =~= a + (x.push('\n') + b));
    lemma_lines_concat(a, x.push('\n') + b);
    lemma_lines_concat(x.push('\n'), b);
    lemma_lines_single(x);
    lemma_lines_concat(a, b);
    let la = lines(a);
    let lb = lines(b);
    let l1 = lines(c1);
    let l2 = lines(c2);
    assert(l1 == la + lb);
    assert(l2 =~= la + seq![x] + lb);
    lemma_node_indent_skip(la, x, lb);
    assert(node_indent_len(c2) == node_indent_len(c1));
    lemma_parse_lines_skip(la, x, lb, lb.len() as int, node_indent_len(c1) as int, yml, ip);
    assert(l2.len() == la.len() + 1 + lb.len());
    let k = la.len() as int;
    assert(!is_port_line(x));
    assert forall|j: int| 0 <= j < l1.len() implies #[trigger] l1[j] == l2[if j < k {
        j
    } else {
        j + 1
    }] by {
        if j < k {
            assert(l2[j] == la[j]);
            assert(l1[j] == la[j]);
        } else {
            assert(l2[j + 1] == lb[j - k]);
            assert(l1[j] == lb[j - k]);
        }
    }
    if parsable(c1) {
        assert forall|j: int| 0 <= j < l2.len() && is_indented(#[trigger] l2[j]) implies leading_spaces(
            l2[j],
        ) <= i32::MAX by {
            let i = if j < k { j } else { j - 1 };
            assert(l2[j] == l1[i]);
        }
        assert forall|j: int| 0 <= j < l2.len() && #[trigger] is_port_line(l2[j]) implies parse_i32(
            port_text(l2[j]),
        ) is Some by {
            let i = if j < k { j } else { j - 1 };
            assert(l2[j] == l1[i]);
        }
    }
    if parsable(c2) {
        assert forall|j: int| 0 <= j < l1.len() && is_indented(#[trigger] l1[j]) implies leading_spaces(
            l1[j],
        ) <= i32::MAX by {
            let i = if j < k { j } else { j + 1 };
            assert(l1[j] == l2[i]);
        }
        assert forall|j: int| 0 <= j < l1.len() && #[trigger] is_port_line(l1[j]) implies parse_i32(
            port_text(l1[j]),
        ) is Some by {
            let i = if j < k { j } else { j + 1 };
            assert(l1[j] == l2[i]);
        }
    }
}

// ---------------------------------------------------------------------------
// What a file's services are made of
// ---------------------------------------------------------------------------

/// A service node line: indented exactly as the file's nodes.
pub open spec fn is_node_line(line: Seq<char>, node: int) -> bool {
    indent_len(line) != 0 && indent_len(line) == node
}

/// A line that is neither a node line nor an indented `SERVER_PORT` line.
pub open spec fn is_quiet_line(line: Seq<char>, node: int) -> bool {
    !is_node_line(line, node) && !is_port_line(line)
}

proof fn lemma_quiet_line_keeps_state(
    st: ParseState,
    line: Seq<char>,
    node: int,
    yml: Seq<char>,
    ip: Seq<char>,
)
    requires
        is_quiet_line(line, node),
    ensures
        parse_line(st, line, node, yml, ip) == st,
{
}

/// Reading more lines only appends services.
proof fn lemma_services_grow(
    ls: Seq<Seq<char>>,
    n: int,
    m: int,
    node: int,
    yml: Seq<char>,
    ip: Seq<char>,
)
    requires
        0 <= n <= m,
    ensures
        parse_lines(ls, n, node, yml, ip).services.len() <= parse_lines(
            ls,
            m,
            node,
            yml,
            ip,
        ).services.len(),
        forall|k: int|
            0 <= k < parse_lines(ls, n, node, yml, ip).services.len() ==> parse_lines(
                ls,
                m,
                node,
                yml,
                ip,
            ).services[k] == #[trigger] parse_lines(ls, n, node, yml, ip).services[k],
    decreases m - n,
{
    if n < m {
        lemma_services_grow(ls, n, m - 1, node, yml, ip);
        let st = parse_lines(ls, m - 1, node, yml, ip);
        let line = ls[m - 1];
        let a = if st.name.len() > 0 {
            st.services.push(service_model(st.name, yml, ip, 0))
        } else {
            st.services
        };
        assert forall|k: int| 0 <= k < st.services.len() implies a[k] == st.services[k] by {}
    }
}

/// After a node line that is not itself a port line, and any number of quiet
/// lines, the pending name is the node's name.
proof fn lemma_pending_name(
    ls: Seq<Seq<char>>,
    i: int,
    k: int,
    node: int,
    yml: Seq<char>,
    ip: Seq<char>,
)
    requires
        0 <= i < k <= ls.len(),
        is_node_line(ls[i], node),
        !contains(ls[i], "SERVER_PORT"@),
        forall|m: int| i < m < k ==> is_quiet_line(#[trigger] ls[m], node),
    ensures
        parse_lines(ls, k, node, yml, ip).name == node_name(ls[i]),
    decreases k - i,
{
    if k > i + 1 {
        lemma_pending_name(ls, i, k - 1, node, yml, ip);
        lemma_quiet_line_keeps_state(parse_lines(ls, k - 1, node, yml, ip), ls[k - 1], node, yml, ip);
    }
}

/// A service node whose next node line comes before any port line is kept, as
/// a service with that node's name and port 0, whatever came before it.
pub proof fn lemma_node_without_port_kept(
    content: Seq<char>,
    yml: Seq<char>,
    ip: Seq<char>,
    i: int,
    j: int,
)
    requires
        0 <= i < j < lines(content).len(),
        is_node_line(lines(content)[i], node_indent_len(content) as int),
        !contains(lines(content)[i], "SERVER_PORT"@),
        node_name(lines(content)[i]).len() > 0,
        is_node_line(lines(content)[j], node_indent_len(content) as int),
        forall|m: int|
            i < m < j ==> is_quiet_line(
                #[trigger] lines(content)[m],
                node_indent_len(content) as int,
            ),
    ensures
        parse_services(content, yml, ip).contains(service_model(node_name(lines(content)[i]), yml, ip, 0)),
{
    let ls = lines(content);
    let node = node_indent_len(content) as int;
    lemma_pending_name(ls, i, j, node, yml, ip);
    let st = parse_lines(ls, j, node, yml, ip);
    let idx = st.services.len() as int;
    let after = parse_lines(ls, j + 1, node, yml, ip);
    assert(after.services[idx] == service_model(node_name(ls[i]), yml, ip, 0));
    lemma_services_grow(ls, j + 1, ls.len() as int, node, yml, ip);
    let all = parse_services(content, yml, ip);
    assert(all[idx] == after.services[idx]);
}

/// A port line yields a service with its port and the name of the node line
/// it belongs to: the last node line at or before it, with no port line in
/// between.
pub proof fn lemma_port_line_kept(content: Seq<char>, yml: Seq<char>, ip: Seq<char>, i: int, j: int)
    requires
        0 <= i <= j < lines(content).len(),
        is_node_line(lines(content)[i], node_indent_len(content) as int),
        is_port_line(lines(content)[j]),
        forall|m: int|
            i < m <= j ==> !is_node_line(#[trigger] lines(content)[m], node_indent_len(content) as int),
        forall|m: int| i <= m < j ==> !is_port_line(#[trigger] lines(content)[m]),
    ensures
        parse_services(content, yml, ip).contains(
            service_model(node_name(lines(content)[i]), yml, ip, parse_i32(port_text(lines(content)[j]))->0),
        ),
{
    let ls = lines(content);
    let node = node_indent_len(content) as int;
    if i < j {
        assert(!is_port_line(ls[i]));
        assert forall|m: int| i < m < j implies is_quiet_line(#[trigger] ls[m], node) by {
            assert(!is_node_line(ls[m], node));
            assert(!is_port_line(ls[m]));
        }
        lemma_pending_name(ls, i, j, node, yml, ip);
    }
    let after = parse_lines(ls, j + 1, node, yml, ip);
    let idx = (after.services.len() - 1) as int;
    assert(after.services[idx] == service_model(
        node_name(ls[i]),
        yml,
        ip,
        parse_i32(port_text(ls[j]))->0,
    ));
    lemma_services_grow(ls, j + 1, ls.len() as int, node, yml, ip);
    let all = parse_services(content, yml, ip);
    assert(all[idx] == after.services[idx]);
}

/// Line `i` opens a service node still waiting for its port when line `n` is
/// reached: it is a named node line that is not a port line, and every line
/// after it up to `n` is quiet.
pub open spec fn open_node(ls: Seq<Seq<char>>, i: int, n: int, node: int) -> bool {
    &&& 0 <= i < n
    &&& is_node_line(ls[i], node)
    &&& !contains(ls[i], "SERVER_PORT"@)
    &&& node_name(ls[i]).len() > 0
    &&& forall|m: int| i < m < n ==> is_quiet_line(#[trigger] ls[m], node)
}

/// Line `j` is a node line that closes a node still waiting for its port.
pub open spec fn closes_node(ls: Seq<Seq<char>>, j: int, node: int) -> bool {
    is_node_line(ls[j], node) && exists|i: int| #[trigger] open_node(ls, i, j, node)
}

/// The number of port lines among the first `n` lines.
pub open spec fn port_line_count(ls: Seq<Seq<char>>, n: int) -> nat
    decreases n,
{
    if n <= 0 {
        0
    } else {
        port_line_count(ls, n - 1) + if is_port_line(ls[n - 1]) {
            1nat
        } else {
            0nat
        }
    }
}

/// The number of node lines among the first `n` that close a waiting node.
pub open spec fn closing_line_count(ls: Seq<Seq<char>>, n: int, node: int) -> nat
    decreases n,
{
    if n <= 0 {
        0
    } else {
        closing_line_count(ls, n - 1, node) + if closes_node(ls, n - 1, node) {
            1nat
        } else {
            0nat
        }
    }
}

proof fn lemma_parse_counts(ls: Seq<Seq<char>>, n: int, node: int, yml: Seq<char>, ip: Seq<char>)
    requires
        0 <= n <= ls.len(),
    ensures
        parse_lines(ls, n, node, yml, ip).services.len() == port_line_count(ls, n)
            + closing_line_count(ls, n, node),
        parse_lines(ls, n, node, yml, ip).name.len() > 0 <==> exists|i: int|
            #[trigger] open_node(ls, i, n, node),
    decreases n,
{
    if n > 0 {
        let k = n - 1;
        lemma_parse_counts(ls, k, node, yml, ip);
        let line = ls[k];
        let st = parse_lines(ls, k, node, yml, ip);
        let nx = parse_lines(ls, n, node, yml, ip);
        if is_quiet_line(line, node) {
            lemma_quiet_line_keeps_state(st, line, node, yml, ip);
            assert(!closes_node(ls, k, node));
            if exists|i: int| #[trigger] open_node(ls, i, k, node) {
                let i = choose|i: int| #[trigger] open_node(ls, i, k, node);
                assert(open_node(ls, i, n, node));
            }
            if exists|i: int| #[trigger] open_node(ls, i, n, node) {
                let i = choose|i: int| #[trigger] open_node(ls, i, n, node);
                assert(i != k);
                assert(open_node(ls, i, k, node));
            }
        } else {
            assert forall|i: int| 0 <= i < k implies !#[trigger] open_node(ls, i, n, node) by {
                assert(!is_quiet_line(ls[k], node));
            }
            if is_node_line(line, node) {
                if st.name.len() > 0 {
                    assert(closes_node(ls, k, node));
                } else {
                    assert(!closes_node(ls, k, node));
                }
                if contains(line, "SERVER_PORT"@) {
                    assert(!open_node(ls, k, n, node));
                } else {
                    if node_name(line).len() > 0 {
                        assert(open_node(ls, k, n, node));
                    } else {
                        assert(!open_node(ls, k, n, node));
                    }
                }
            } else {
                assert(is_port_line(line));
                assert(!closes_node(ls, k, node));
                assert(!open_node(ls, k, n, node));
            }
        }
    }
}

/// The number of services read from a file: one for each indented
/// `SERVER_PORT` line, and one (with port 0) for each named node that is
/// followed by another node line before any port line.
pub proof fn lemma_service_count(content: Seq<char>, yml: Seq<char>, ip: Seq<char>)
    ensures
        parse_services(content, yml, ip).len() == port_line_count(
            lines(content),
            lines(content).len() as int,
        ) + closing_line_count(
            lines(content),
            lines(content).len() as int,
            node_indent_len(content) as int,
        ),
{
    lemma_parse_counts(
        lines(content),
        lines(content).len() as int,
        node_indent_len(content) as int,
        yml,
        ip,
    );
}

} // verus!
