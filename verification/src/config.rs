//! The plain configuration records the application persists and passes
//! around: saved servers, user preferences, query snippets, and the
//! assistant settings.

use vstd::prelude::*;

verus! {

/// A saved server connection, as stored in the server list.
#[derive(Debug)]
pub struct ServerConfig {
    /// Stable identifier of the entry.
    pub id: String,
    /// Display name.
    pub name: String,
    /// Host to connect to.
    pub host: String,
    /// TCP port of the server.
    pub port: u16,
    /// User name.
    pub user: String,
    /// Password, when stored.
    pub pass: Option<String>,
    /// Whether to use TLS.
    pub ssl: Option<bool>,
    /// Whether to tunnel over SSH.
    pub ssh_enabled: Option<bool>,
    /// SSH host of the tunnel.
    pub ssh_host: Option<String>,
    /// SSH port of the tunnel.
    pub ssh_port: Option<u16>,
    /// SSH user of the tunnel.
    pub ssh_user: Option<String>,
    /// SSH password of the tunnel.
    pub ssh_pass: Option<String>,
    /// Whether to connect on startup.
    pub auto_connect: Option<bool>,
}

/// The credentials one live connection is opened with.
#[derive(Clone, Debug)]
pub struct DbConfig {
    /// Host to connect to.
    pub host: String,
    /// User name.
    pub user: String,
    /// Password.
    pub pass: String,
    /// TCP port of the server.
    pub port: u16,
    /// Whether to use TLS.
    pub ssl: Option<bool>,
    /// Whether to tunnel over SSH.
    pub ssh_enabled: Option<bool>,
    /// SSH host of the tunnel.
    pub ssh_host: Option<String>,
    /// SSH port of the tunnel.
    pub ssh_port: Option<u16>,
    /// SSH user of the tunnel.
    pub ssh_user: Option<String>,
    /// SSH password of the tunnel.
    pub ssh_pass: Option<String>,
}

/// One entry of the query history kept in the preferences.
#[derive(Clone, Debug)]
pub struct QueryHistoryItem {
    /// The query text that was run.
    pub sql: String,
    /// When it was run, as recorded by the caller.
    pub timestamp: String,
}

/// The user's interface preferences.
#[derive(Clone, Debug)]
pub struct AppPreferences {
    /// Color theme name.
    pub theme: String,
    /// Accent color name.
    pub accent_color: String,
    /// Layout density name.
    pub density: String,
    /// Font family name.
    pub font_family: String,
    /// How the dashboard lists databases.
    pub dashboard_view_mode: String,
    /// Whether system databases are shown.
    pub show_system_dbs: bool,
    /// The queries run so far, newest last.
    pub query_history: Vec<QueryHistoryItem>,
}

impl Default for AppPreferences {
    /// The preferences of a fresh installation: dark theme, blue
    /// accent, default density, sans font, grid dashboard, system
    /// databases hidden, empty history.
    fn default() -> (r: AppPreferences)
        ensures
            r.theme@ == ("dark")@,
            r.accent_color@ == ("blue")@,
            r.density@ == ("default")@,
            r.font_family@ == ("sans")@,
            r.dashboard_view_mode@ == ("grid")@,
            !r.show_system_dbs,
            r.query_history@.len() == 0,
    {
        AppPreferences {
            theme: "dark".to_owned(),
            accent_color: "blue".to_owned(),
            density: "default".to_owned(),
            font_family: "sans".to_owned(),
            dashboard_view_mode: "grid".to_owned(),
            show_system_dbs: false,
            query_history: Vec::new(),
        }
    }
}

/// One saved query snippet.
#[derive(Debug)]
pub struct Snippet {
    /// Stable identifier of the entry.
    pub id: String,
    /// Display name.
    pub name: String,
    /// The snippet's query text.
    pub sql: String,
    /// Optional description.
    pub description: Option<String>,
    /// When the snippet was created, as recorded by the caller.
    pub created_at: String,
}

/// Settings of the query-generation assistant.
#[derive(Clone, Debug)]
pub struct AIConfig {
    /// Which provider to call.
    pub provider: String,
    /// API key for the hosted provider, when needed.
    pub api_key: Option<String>,
    /// Model name to request.
    pub model: String,
    /// Endpoint of a locally hosted provider.
    pub endpoint: Option<String>,
}

impl Default for AIConfig {
    /// The settings used when none are stored yet: a local provider at
    /// its usual endpoint, no API key.
    fn default() -> (r: AIConfig)
        ensures
            r.provider@ == ("ollama")@,
            r.api_key is None,
            r.model@ == ("llama3")@,
            r.endpoint matches Some(e) && e@ == ("http://localhost:11434")@,
    {
        AIConfig {
            provider: "ollama".to_owned(),
            api_key: None,
            model: "llama3".to_owned(),
            endpoint: Some("http://localhost:11434".to_owned()),
        }
    }
}

impl Clone for ServerConfig {
    /// An exact copy, field for field.
    fn clone(&self) -> (res: ServerConfig)
        ensures
            res == *self,
    {
        ServerConfig {
            id: self.id.clone(),
            name: self.name.clone(),
            host: self.host.clone(),
            port: self.port,
            user: self.user.clone(),
            pass: match &self.pass {
                Some(s) => Some(s.clone()),
                None => None,
            },
            ssl: self.ssl,
            ssh_enabled: self.ssh_enabled,
            ssh_host: match &self.ssh_host {
                Some(s) => Some(s.clone()),
                None => None,
            },
            ssh_port: self.ssh_port,
            ssh_user: match &self.ssh_user {
                Some(s) => Some(s.clone()),
                None => None,
            },
            ssh_pass: match &self.ssh_pass {
                Some(s) => Some(s.clone()),
                None => None,
            },
            auto_connect: self.auto_connect,
        }
    }
}

impl Clone for Snippet {
    /// An exact copy, field for field.
    fn clone(&self) -> (res: Snippet)
        ensures
            res == *self,
    {
        Snippet {
            id: self.id.clone(),
            name: self.name.clone(),
            sql: self.sql.clone(),
            description: match &self.description {
                Some(s) => Some(s.clone()),
                None => None,
            },
            created_at: self.created_at.clone(),
        }
    }
}

/// The position of the first snippet with the given identifier, looking
/// from position `i` on; negative when there is none.
pub open spec fn find_snippet_from(s: Seq<Snippet>, id: Seq<char>, i: int) -> int
    decreases s.len() - i,
{
    if i < 0 || i >= s.len() {
        -1
    } else if s[i].id@ == id {
        i
    } else {
        find_snippet_from(s, id, i + 1)
    }
}

/// The snippet list without the entries carrying the given identifier.
pub open spec fn spec_remove_snippets(s: Seq<Snippet>, id: Seq<char>) -> Seq<Snippet>
    decreases s.len(),
{
    if s.len() == 0 {
        Seq::empty()
    } else if s[0].id@ == id {
        spec_remove_snippets(s.drop_first(), id)
    } else {
        seq![s[0]] + spec_remove_snippets(s.drop_first(), id)
    }
}

/// Removing an identifier distributes over extending the list by one.
proof fn lemma_remove_snippets_snoc(s: Seq<Snippet>, id: Seq<char>, x: Snippet)
    ensures
        spec_remove_snippets(s.push(x), id) == spec_remove_snippets(s, id) + (if x.id@ == id {
            Seq::<Snippet>::empty()
        } else {
            seq![x]
        }),
    decreases s.len(),
{
    let t = s.push(x);
    if s.len() == 0 {
        assert(t[0] == x);
        assert(spec_remove_snippets(Seq::<Snippet>::empty(), id) == Seq::<Snippet>::empty());
        assert(t.drop_first() =~= Seq::<Snippet>::empty());
        if x.id@ == id {
            assert(spec_remove_snippets(t, id) == spec_remove_snippets(t.drop_first(), id));
            assert(spec_remove_snippets(t, id) =~= spec_remove_snippets(s, id)
                + Seq::<Snippet>::empty());
        } else {
            assert(spec_remove_snippets(t, id) == seq![t[0]] + spec_remove_snippets(t.drop_first(), id));
            assert(spec_remove_snippets(t, id) =~= spec_remove_snippets(s, id) + seq![x]);
        }
    } else {
        assert(t[0] == s[0]);
        assert(t.drop_first() =~= s.drop_first().push(x));
        lemma_remove_snippets_snoc(s.drop_first(), id, x);
        let tail = if x.id@ == id {
            Seq::<Snippet>::empty()
        } else {
            seq![x]
        };
        if s[0].id@ != id {
            assert(seq![s[0]] + (spec_remove_snippets(s.drop_first(), id) + tail) =~= (seq![s[0]]
                + spec_remove_snippets(s.drop_first(), id)) + tail);
        }
    }
}

/// Stores a snippet in the list: the first entry with the same
/// identifier is replaced in place, and a new identifier is appended
/// at the end, as the snippet store does on save.
pub fn upsert_snippet(list: &mut Vec<Snippet>, snippet: Snippet)
    ensures
        find_snippet_from(old(list)@, snippet.id@, 0) < 0 ==> final(list)@ == old(list)@.push(
            snippet,
        ),
        find_snippet_from(old(list)@, snippet.id@, 0) >= 0 ==> final(list)@ == old(list)@.update(
            find_snippet_from(old(list)@, snippet.id@, 0),
            snippet,
        ),
{
    let n = list.len();
    let mut i: usize = 0;
    while i < n
        invariant
            i <= n == list@.len(),
            list@ == old(list)@,
            find_snippet_from(list@, snippet.id@, 0) == find_snippet_from(
                list@,
                snippet.id@,
                i as int,
            ),
        decreases n - i,
    {
        if list[i].id == snippet.id {
            let ghost before = list@;
            let _ = list.remove(i);
            list.insert(i, snippet);
            proof {
                assert(find_snippet_from(before, snippet.id@, i as int) == i);
                assert(before.remove(i as int).insert(i as int, snippet) =~= before.update(
                    i as int,
                    snippet,
                ));
            }
            return ;
        }
        i = i + 1;
    }
    list.push(snippet);
}

/// Drops every snippet with the given identifier from the list, as the
/// snippet store does on delete; the other entries keep their order.
pub fn remove_snippet(list: &Vec<Snippet>, id: &String) -> (r: Vec<Snippet>)
    ensures
        r@ == spec_remove_snippets(list@, id@),
{
    let n = list.len();
    let mut r: Vec<Snippet> = Vec::new();
    let mut i: usize = 0;
    proof {
        assert(list@.take(0) =~= Seq::<Snippet>::empty());
        assert(r@ =~= spec_remove_snippets(list@.take(0), id@));
    }
    while i < n
        invariant
            i <= n == list@.len(),
            r@ == spec_remove_snippets(list@.take(i as int), id@),
        decreases n - i,
    {
        if !(list[i].id == *id) {
            r.push(list[i].clone());
        }
        proof {
            assert(list@.take(i + 1) =~= list@.take(i as int).push(list@[i as int]));
            lemma_remove_snippets_snoc(list@.take(i as int), id@, list@[i as int]);
            assert(r@ =~= spec_remove_snippets(list@.take(i + 1), id@));
        }
        i = i + 1;
    }
    proof {
        assert(list@.take(n as int) =~= list@);
    }
    r
}

/// The position of the first saved server with the given identifier,
/// looking from position `i` on; negative when there is none.
pub open spec fn find_server_from(s: Seq<ServerConfig>, id: Seq<char>, i: int) -> int
    decreases s.len() - i,
{
    if i < 0 || i >= s.len() {
        -1
    } else if s[i].id@ == id {
        i
    } else {
        find_server_from(s, id, i + 1)
    }
}

/// The server list without the entries carrying the given identifier.
pub open spec fn spec_remove_servers(s: Seq<ServerConfig>, id: Seq<char>) -> Seq<ServerConfig>
    decreases s.len(),
{
    if s.len() == 0 {
        Seq::empty()
    } else if s[0].id@ == id {
        spec_remove_servers(s.drop_first(), id)
    } else {
        seq![s[0]] + spec_remove_servers(s.drop_first(), id)
    }
}

/// Removing an identifier distributes over extending the list by one.
proof fn lemma_remove_servers_snoc(s: Seq<ServerConfig>, id: Seq<char>, x: ServerConfig)
    ensures
        spec_remove_servers(s.push(x), id) == spec_remove_servers(s, id) + (if x.id@ == id {
            Seq::<ServerConfig>::empty()
        } else {
            seq![x]
        }),
    decreases s.len(),
{
    let t = s.push(x);
    if s.len() == 0 {
        assert(t[0] == x);
        assert(spec_remove_servers(Seq::<ServerConfig>::empty(), id) == Seq::<ServerConfig>::empty());
        assert(t.drop_first() =~= Seq::<ServerConfig>::empty());
        if x.id@ == id {
            assert(spec_remove_servers(t, id) == spec_remove_servers(t.drop_first(), id));
            assert(spec_remove_servers(t, id) =~= spec_remove_servers(s, id)
                + Seq::<ServerConfig>::empty());
        } else {
            assert(spec_remove_servers(t, id) == seq![t[0]] + spec_remove_servers(t.drop_first(), id));
            assert(spec_remove_servers(t, id) =~= spec_remove_servers(s, id) + seq![x]);
        }
    } else {
        assert(t[0] == s[0]);
        assert(t.drop_first() =~= s.drop_first().push(x));
        lemma_remove_servers_snoc(s.drop_first(), id, x);
        let tail = if x.id@ == id {
            Seq::<ServerConfig>::empty()
        } else {
            seq![x]
        };
        if s[0].id@ != id {
            assert(seq![s[0]] + (spec_remove_servers(s.drop_first(), id) + tail) =~= (seq![s[0]]
                + spec_remove_servers(s.drop_first(), id)) + tail);
        }
    }
}

/// Stores a server entry in the saved list: the first entry with the
/// same identifier is replaced in place, and a new identifier is
/// appended at the end, as the local server store does on save.
pub fn upsert_server(list: &mut Vec<ServerConfig>, server: ServerConfig)
    ensures
        find_server_from(old(list)@, server.id@, 0) < 0 ==> final(list)@ == old(list)@.push(
            server,
        ),
        find_server_from(old(list)@, server.id@, 0) >= 0 ==> final(list)@ == old(list)@.update(
            find_server_from(old(list)@, server.id@, 0),
            server,
        ),
{
    let n = list.len();
    let mut i: usize = 0;
    while i < n
        invariant
            i <= n == list@.len(),
            list@ == old(list)@,
            find_server_from(list@, server.id@, 0) == find_server_from(
                list@,
                server.id@,
                i as int,
            ),
        decreases n - i,
    {
        if list[i].id == server.id {
            let ghost before = list@;
            let _ = list.remove(i);
            list.insert(i, server);
            proof {
                assert(find_server_from(before, server.id@, i as int) == i);
                assert(before.remove(i as int).insert(i as int, server) =~= before.update(
                    i as int,
                    server,
                ));
            }
            return ;
        }
        i = i + 1;
    }
    list.push(server);
}

/// Drops every saved server with the given identifier from the list,
/// as the local server store does on delete; order is kept.
pub fn remove_server(list: &Vec<ServerConfig>, id: &String) -> (r: Vec<ServerConfig>)
    ensures
        r@ == spec_remove_servers(list@, id@),
{
    let n = list.len();
    let mut r: Vec<ServerConfig> = Vec::new();
    let mut i: usize = 0;
    proof {
        assert(list@.take(0) =~= Seq::<ServerConfig>::empty());
        assert(r@ =~= spec_remove_servers(list@.take(0), id@));
    }
    while i < n
        invariant
            i <= n == list@.len(),
            r@ == spec_remove_servers(list@.take(i as int), id@),
        decreases n - i,
    {
        if !(list[i].id == *id) {
            r.push(list[i].clone());
        }
        proof {
            assert(list@.take(i + 1) =~= list@.take(i as int).push(list@[i as int]));
            lemma_remove_servers_snoc(list@.take(i as int), id@, list@[i as int]);
            assert(r@ =~= spec_remove_servers(list@.take(i + 1), id@));
        }
        i = i + 1;
    }
    proof {
        assert(list@.take(n as int) =~= list@);
    }
    r
}

} // verus!
