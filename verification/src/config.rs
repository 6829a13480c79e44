//! The configuration of a server: its defaults, its file and the command line.
use crate::number;
use crate::rule;
use crate::rule::{ProxyRule, ProxyRuleView};
use crate::runtime::RuntimeConfig;
use crate::text;
use crate::toml;
use vstd::prelude::*;

verus! {

/// What a server serves, and where.
#[derive(Debug)]
pub struct Config {
    pub host: String,
    pub port: u16,
    pub root: String,
    pub spa_fallback: bool,
    pub proxies: Vec<ProxyRule>,
    pub runtime: RuntimeConfig,
}

/// What a `Config` holds.
#[verifier::ext_equal]
pub struct ConfigView {
    pub host: Seq<char>,
    pub port: u16,
    pub root: Seq<char>,
    pub spa_fallback: bool,
    pub proxies: Seq<ProxyRuleView>,
    pub runtime: RuntimeConfig,
}

impl View for Config {
    type V = ConfigView;

    open spec fn view(&self) -> ConfigView {
        ConfigView {
            host: self.host@,
            port: self.port,
            root: self.root@,
            spa_fallback: self.spa_fallback,
            proxies: rule::rule_views(self.proxies@),
            runtime: self.runtime,
        }
    }
}

/// A proxy rule of which not all may have been read.
#[derive(Debug)]
pub struct PartialProxy {
    pub prefix: Option<String>,
    pub target: Option<String>,
}

/// The section of a configuration file that a line stands in.
#[derive(Debug)]
pub enum ConfigSection {
    /// What stands before any section.
    Root,
    /// One proxy rule.
    Proxy(PartialProxy),
    /// Proxy rules, one in a line.
    ProxyMap,
}

/// What a `ConfigSection` holds.
#[verifier::ext_equal]
pub enum SectionView {
    Root,
    Proxy { prefix: Option<Seq<char>>, target: Option<Seq<char>> },
    ProxyMap,
}

impl View for ConfigSection {
    type V = SectionView;

    open spec fn view(&self) -> SectionView {
        match *self {
            ConfigSection::Root => SectionView::Root,
            ConfigSection::Proxy(proxy) => SectionView::Proxy {
                prefix: rule::maybe(proxy.prefix),
                target: rule::maybe(proxy.target),
            },
            ConfigSection::ProxyMap => SectionView::ProxyMap,
        }
    }
}

/// The rule that a section spells, where it is for one. Nothing but the rule itself
/// may be wrong with its prefix and target once both are there.
pub open spec fn rule_of_section(section: SectionView, path: Seq<char>, line: nat) -> Result<
    Option<ProxyRuleView>,
    Seq<char>,
> {
    match section {
        SectionView::Proxy { prefix, target } => match (prefix, target) {
            (None, _) => Err(toml::located(path, line, "proxy section is missing prefix"@)),
            (_, None) => Err(toml::located(path, line, "proxy section is missing target"@)),
            (Some(prefix), Some(target)) => match rule::rule_for(prefix, target) {
                Ok(found) => Ok(Some(found)),
                Err(message) => Err(message),
            },
        },
        _ => Ok(None),
    }
}

/// Ends a section: adds the rule that it spells, if it is for one.
pub fn flush_proxy_section(
    section: &mut ConfigSection,
    proxies: &mut Vec<ProxyRule>,
    path: &str,
    line_number: usize,
) -> (r: Result<(), String>)
    ensures
        final(section)@ == SectionView::Root,
        match rule_of_section(old(section)@, path@, line_number as nat) {
            Ok(None) => r is Ok && final(proxies)@ == old(proxies)@,
            Ok(Some(found)) => r is Ok && rule::rule_views(final(proxies)@) == rule::rule_views(
                old(proxies)@,
            ).push(found),
            Err(message) => r matches Err(m) && m@ == message && final(proxies)@ == old(proxies)@,
        },
{
    let mut current = ConfigSection::Root;
    std::mem::swap(&mut current, section);
    if let ConfigSection::Proxy(proxy) = current {
        let prefix = match proxy.prefix {
            Some(prefix) => prefix,
            None => {
                let message = toml::at_line(
                    path,
                    line_number,
                    "proxy section is missing prefix",
                    "",
                );
                proof {
                    reveal_strlit("");
                    assert("proxy section is missing prefix"@ + ""@
                        == "proxy section is missing prefix"@);
                }
                return Err(message);
            },
        };
        let target = match proxy.target {
            Some(target) => target,
            None => {
                let message = toml::at_line(
                    path,
                    line_number,
                    "proxy section is missing target",
                    "",
                );
                proof {
                    reveal_strlit("");
                    assert("proxy section is missing target"@ + ""@
                        == "proxy section is missing target"@);
                }
                return Err(message);
            },
        };
        match ProxyRule::new(prefix.as_str(), target.as_str()) {
            Ok(found) => {
                push_rule(proxies, found);
            },
            Err(message) => {
                return Err(message);
            },
        }
    }
    Ok(())
}

/// Adds a rule after the others.
fn push_rule(proxies: &mut Vec<ProxyRule>, added: ProxyRule)
    ensures
        rule::rule_views(final(proxies)@) == rule::rule_views(old(proxies)@).push(added@),
{
    let ghost before = proxies@;
    proxies.push(added);
    assert(rule::rule_views(proxies@) =~= rule::rule_views(before).push(added@));
}

impl ConfigView {
    /// The configuration to start from, in the directory `current_dir` and with
    /// `limit` file descriptors.
    pub open spec fn defaults(current_dir: Seq<char>, limit: Option<usize>) -> ConfigView {
        ConfigView {
            host: "127.0.0.1"@,
            port: 8080,
            root: current_dir,
            spa_fallback: true,
            proxies: Seq::empty(),
            runtime: RuntimeConfig::defaults(limit),
        }
    }

    pub open spec fn with_host(self, host: Seq<char>) -> ConfigView {
        ConfigView { host, ..self }
    }

    pub open spec fn with_port(self, port: u16) -> ConfigView {
        ConfigView { port, ..self }
    }

    pub open spec fn with_root(self, root: Seq<char>) -> ConfigView {
        ConfigView { root, ..self }
    }

    pub open spec fn with_spa_fallback(self, spa_fallback: bool) -> ConfigView {
        ConfigView { spa_fallback, ..self }
    }

    pub open spec fn with_rule(self, added: ProxyRuleView) -> ConfigView {
        ConfigView { proxies: self.proxies.push(added), ..self }
    }

    pub open spec fn with_keep_alive_timeout(self, secs: usize) -> ConfigView {
        ConfigView {
            runtime: RuntimeConfig { keep_alive_timeout_secs: secs as u64, ..self.runtime },
            ..self
        }
    }

    pub open spec fn with_keep_alive_max(self, n: usize) -> ConfigView {
        ConfigView { runtime: RuntimeConfig { keep_alive_max: n, ..self.runtime }, ..self }
    }

    pub open spec fn with_max_events(self, n: usize) -> ConfigView {
        ConfigView { runtime: RuntimeConfig { max_events: n, ..self.runtime }, ..self }
    }

    pub open spec fn with_max_connections(self, n: usize) -> ConfigView {
        ConfigView { runtime: RuntimeConfig { max_connections: n, ..self.runtime }, ..self }
    }

    pub open spec fn with_max_request_size(self, n: usize) -> ConfigView {
        ConfigView { runtime: RuntimeConfig { max_request_size: n, ..self.runtime }, ..self }
    }

    /// The configuration with the setting `key = value`, or what is wrong with it.
    pub open spec fn with_setting(
        self,
        key: Seq<char>,
        value: Seq<char>,
        path: Seq<char>,
        line: nat,
    ) -> Result<ConfigView, Seq<char>> {
        if key == "host"@ {
            match toml::string_in(value, path, line) {
                Ok(host) => Ok(self.with_host(host)),
                Err(message) => Err(message),
            }
        } else if key == "port"@ {
            match toml::port_in(value, path, line) {
                Ok(port) => Ok(self.with_port(port)),
                Err(message) => Err(message),
            }
        } else if key == "root"@ || key == "dir"@ {
            match toml::string_in(value, path, line) {
                Ok(root) => Ok(self.with_root(root)),
                Err(message) => Err(message),
            }
        } else if key == "spa_fallback"@ {
            match toml::bool_in(value, path, line) {
                Ok(fallback) => Ok(self.with_spa_fallback(fallback)),
                Err(message) => Err(message),
            }
        } else if key == "keep_alive_timeout"@ || key == "keep_alive_timeout_secs"@ {
            match toml::size_in(value, path, line) {
                Ok(secs) => Ok(self.with_keep_alive_timeout(secs)),
                Err(message) => Err(message),
            }
        } else if key == "keep_alive_max"@ {
            match toml::size_in(value, path, line) {
                Ok(n) => Ok(self.with_keep_alive_max(n)),
                Err(message) => Err(message),
            }
        } else if key == "max_events"@ {
            match toml::size_in(value, path, line) {
                Ok(n) => Ok(self.with_max_events(n)),
                Err(message) => Err(message),
            }
        } else if key == "max_connections"@ {
            match toml::size_in(value, path, line) {
                Ok(n) => Ok(self.with_max_connections(n)),
                Err(message) => Err(message),
            }
        } else if key == "max_request_size"@ {
            match toml::size_in(value, path, line) {
                Ok(n) => Ok(self.with_max_request_size(n)),
                Err(message) => Err(message),
            }
        } else {
            Err(toml::located(path, line, "unsupported config key: "@ + key))
        }
    }
}

impl Config {
    /// Takes the setting `key = value`.
    pub fn apply_root_config(
        &mut self,
        key: &str,
        value: &str,
        path: &str,
        line_number: usize,
    ) -> (r: Result<(), String>)
        ensures
            match r {
                Ok(()) => old(self)@.with_setting(key@, value@, path@, line_number as nat) == Ok::<
                    ConfigView,
                    Seq<char>,
                >(final(self)@),
                Err(message) => old(self)@.with_setting(key@, value@, path@, line_number as nat)
                    == Err::<ConfigView, Seq<char>>(message@) && final(self)@ == old(self)@,
            },
    {
        if text::same(key, "host") {
            self.host = match toml::parse_string(value, path, line_number) {
                Ok(host) => host,
                Err(message) => {
                    return Err(message);
                },
            };
        } else if text::same(key, "port") {
            self.port = match toml::parse_u16(value, path, line_number) {
                Ok(port) => port,
                Err(message) => {
                    return Err(message);
                },
            };
        } else if text::same(key, "root") || text::same(key, "dir") {
            self.root = match toml::parse_string(value, path, line_number) {
                Ok(root) => root,
                Err(message) => {
                    return Err(message);
                },
            };
        } else if text::same(key, "spa_fallback") {
            self.spa_fallback = match toml::parse_bool(value, path, line_number) {
                Ok(fallback) => fallback,
                Err(message) => {
                    return Err(message);
                },
            };
        } else if text::same(key, "keep_alive_timeout") || text::same(
            key,
            "keep_alive_timeout_secs",
        ) {
            self.runtime.keep_alive_timeout_secs = match toml::parse_usize(
                value,
                path,
                line_number,
            ) {
                Ok(n) => n as u64,
                Err(message) => {
                    return Err(message);
                },
            };
        } else if text::same(key, "keep_alive_max") {
            self.runtime.keep_alive_max = match toml::parse_usize(value, path, line_number) {
                Ok(n) => n,
                Err(message) => {
                    return Err(message);
                },
            };
        } else if text::same(key, "max_events") {
            self.runtime.max_events = match toml::parse_usize(value, path, line_number) {
                Ok(n) => n,
                Err(message) => {
                    return Err(message);
                },
            };
        } else if text::same(key, "max_connections") {
            self.runtime.max_connections = match toml::parse_usize(value, path, line_number) {
                Ok(n) => n,
                Err(message) => {
                    return Err(message);
                },
            };
        } else if text::same(key, "max_request_size") {
            self.runtime.max_request_size = match toml::parse_usize(value, path, line_number) {
                Ok(n) => n,
                Err(message) => {
                    return Err(message);
                },
            };
        } else {
            return Err(toml::at_line(path, line_number, "unsupported config key: ", key));
        }
        Ok(())
    }
}

/// Where the reading of a configuration file stands: what has been read, the section
/// that it is in, and what was wrong, after which nothing more is read.
#[verifier::ext_equal]
pub struct Reading {
    pub config: ConfigView,
    pub section: SectionView,
    pub problem: Option<Seq<char>>,
}

impl Reading {
    /// Where a file starts.
    pub open spec fn start(config: ConfigView) -> Reading {
        Reading { config, section: SectionView::Root, problem: None }
    }

    /// The reading stopped by a problem.
    pub open spec fn stopped(self, message: Seq<char>) -> Reading {
        Reading { problem: Some(message), ..self }
    }

    /// The reading after the end of its section, with `next` as the section after it.
    pub open spec fn flushed(self, next: SectionView, path: Seq<char>, line: nat) -> Reading {
        match rule_of_section(self.section, path, line) {
            Ok(None) => Reading { section: next, ..self },
            Ok(Some(found)) => Reading {
                config: self.config.with_rule(found),
                section: next,
                ..self
            },
            Err(message) => (Reading { section: SectionView::Root, ..self }).stopped(message),
        }
    }

    /// The reading after the setting `key = value`.
    pub open spec fn set(
        self,
        key: Seq<char>,
        value: Seq<char>,
        path: Seq<char>,
        line: nat,
    ) -> Reading {
        match self.section {
            SectionView::Root => match self.config.with_setting(key, value, path, line) {
                Ok(config) => Reading { config, ..self },
                Err(message) => self.stopped(message),
            },
            SectionView::Proxy { prefix, target } => if key == "prefix"@ {
                match toml::string_in(value, path, line) {
                    Ok(s) => Reading {
                        section: SectionView::Proxy { prefix: Some(s), target },
                        ..self
                    },
                    Err(message) => self.stopped(message),
                }
            } else if key == "target"@ || key == "upstream"@ {
                match toml::string_in(value, path, line) {
                    Ok(s) => Reading {
                        section: SectionView::Proxy { prefix, target: Some(s) },
                        ..self
                    },
                    Err(message) => self.stopped(message),
                }
            } else {
                self.stopped(toml::located(path, line, "unsupported proxy key: "@ + key))
            },
            SectionView::ProxyMap => match toml::string_in(value, path, line) {
                Ok(target) => match rule::rule_for(key, target) {
                    Ok(found) => Reading { config: self.config.with_rule(found), ..self },
                    Err(message) => self.stopped(message),
                },
                Err(message) => self.stopped(message),
            },
        }
    }

    /// The reading after the line `raw`, the `line`th of the file.
    pub open spec fn after_line(self, raw: Seq<char>, path: Seq<char>, line: nat) -> Reading {
        let content = text::trim(toml::uncommented(raw));
        if content.len() == 0 {
            self
        } else if content == "[[proxy]]"@ || content == "[[proxies]]"@ {
            self.flushed(SectionView::Proxy { prefix: None, target: None }, path, line)
        } else if content == "[proxy]"@ || content == "[proxies]"@ {
            self.flushed(SectionView::ProxyMap, path, line)
        } else if content[0] == '[' {
            self.stopped(toml::located(path, line, "unsupported TOML section: "@ + content))
        } else {
            match text::split_once(content, '=') {
                None => self.stopped(
                    toml::located(path, line, "expected key = value, got: "@ + content),
                ),
                Some((key, value)) => self.set(
                    toml::key(text::trim(key)),
                    text::trim(value),
                    path,
                    line,
                ),
            }
        }
    }

    /// The reading after those of `lines` from `from` on and the end of the file.
    pub open spec fn after_lines(self, lines: Seq<Seq<char>>, path: Seq<char>, from: int) -> Reading
        decreases lines.len() - from,
    {
        if self.problem is Some {
            self
        } else if from >= lines.len() {
            self.flushed(SectionView::Root, path, lines.len())
        } else {
            self.after_line(lines[from], path, (from + 1) as nat).after_lines(
                lines,
                path,
                from + 1,
            )
        }
    }
}

/// What a configuration file that holds `content` makes of `config`.
pub open spec fn file_read(config: ConfigView, content: Seq<char>, path: Seq<char>) -> Reading {
    Reading::start(config).after_lines(text::lines(content), path, 0)
}

impl Config {
    /// Takes the setting `key = value` of a section.
    fn apply_setting(
        &mut self,
        section: &mut ConfigSection,
        key: &str,
        value: &str,
        path: &str,
        line_number: usize,
    ) -> (r: Result<(), String>)
        ensures
            (Reading { config: old(self)@, section: old(section)@, problem: None }).set(
                key@,
                value@,
                path@,
                line_number as nat,
            ) == (Reading {
                config: final(self)@,
                section: final(section)@,
                problem: match r {
                    Ok(()) => None,
                    Err(message) => Some(message@),
                },
            }),
    {
        match section {
            ConfigSection::Root => self.apply_root_config(key, value, path, line_number),
            ConfigSection::Proxy(proxy) => {
                if text::same(key, "prefix") {
                    match toml::parse_string(value, path, line_number) {
                        Ok(s) => {
                            proxy.prefix = Some(s);
                            Ok(())
                        },
                        Err(message) => Err(message),
                    }
                } else if text::same(key, "target") || text::same(key, "upstream") {
                    match toml::parse_string(value, path, line_number) {
                        Ok(s) => {
                            proxy.target = Some(s);
                            Ok(())
                        },
                        Err(message) => Err(message),
                    }
                } else {
                    Err(toml::at_line(path, line_number, "unsupported proxy key: ", key))
                }
            },
            ConfigSection::ProxyMap => match toml::parse_string(value, path, line_number) {
                Ok(target) => match ProxyRule::new(key, target.as_str()) {
                    Ok(found) => {
                        push_rule(&mut self.proxies, found);
                        Ok(())
                    },
                    Err(message) => Err(message),
                },
                Err(message) => Err(message),
            },
        }
    }

    /// Takes one line of a configuration file.
    fn apply_line(
        &mut self,
        section: &mut ConfigSection,
        raw_line: &[char],
        path: &str,
        line_number: usize,
    ) -> (r: Result<(), String>)
        ensures
            (Reading { config: old(self)@, section: old(section)@, problem: None }).after_line(
                raw_line@,
                path@,
                line_number as nat,
            ) == (Reading {
                config: final(self)@,
                section: final(section)@,
                problem: match r {
                    Ok(()) => None,
                    Err(message) => Some(message@),
                },
            }),
    {
        let uncommented = toml::strip_inline_comment(text::string_of(raw_line).as_str());
        let chars = text::chars_of(uncommented.as_str());
        let line = text::trimmed(chars.as_slice());
        if line.len() == 0 {
            return Ok(());
        }
        if text::spells(line, "[[proxy]]") || text::spells(line, "[[proxies]]") {
            flush_proxy_section(section, &mut self.proxies, path, line_number)?;
            *section = ConfigSection::Proxy(PartialProxy { prefix: None, target: None });
            return Ok(());
        }
        if text::spells(line, "[proxy]") || text::spells(line, "[proxies]") {
            flush_proxy_section(section, &mut self.proxies, path, line_number)?;
            *section = ConfigSection::ProxyMap;
            return Ok(());
        }
        if line[0] == '[' {
            return Err(
                toml::at_line(
                    path,
                    line_number,
                    "unsupported TOML section: ",
                    text::string_of(line).as_str(),
                ),
            );
        }
        match text::cut(line, '=') {
            None => Err(
                toml::at_line(
                    path,
                    line_number,
                    "expected key = value, got: ",
                    text::string_of(line).as_str(),
                ),
            ),
            Some((key, value)) => {
                let key = toml::parse_key(text::string_of(text::trimmed(key)).as_str());
                let value = text::string_of(text::trimmed(value));
                self.apply_setting(section, key.as_str(), value.as_str(), path, line_number)
            },
        }
    }

    /// Takes the settings and rules of a configuration file. `path` is how the file is
    /// named in messages. Where something is wrong, what stands before it has been
    /// taken.
    pub fn apply_toml(&mut self, content: &str, path: &str) -> (r: Result<(), String>)
        ensures
            final(self)@ == file_read(old(self)@, content@, path@).config,
            match r {
                Ok(()) => file_read(old(self)@, content@, path@).problem is None,
                Err(message) => file_read(old(self)@, content@, path@).problem == Some(message@),
            },
    {
        let ghost start = self@;
        let chars = text::chars_of(content);
        let lines = text::cut_lines(chars.as_slice());
        let ghost all = text::texts(lines@);
        let mut section = ConfigSection::Root;
        let mut i: usize = 0;
        while i < lines.len()
            invariant
                i <= lines.len(),
                all == text::texts(lines@),
                all == text::lines(content@),
                start == old(self)@,
                file_read(start, content@, path@) == (Reading {
                    config: self@,
                    section: section@,
                    problem: None,
                }).after_lines(all, path@, i as int),
            decreases lines.len() - i,
        {
            let ghost before = Reading { config: self@, section: section@, problem: None };
            assert(all[i as int] == lines@[i as int]@);
            let step = self.apply_line(&mut section, lines[i], path, i + 1);
            assert(before.after_lines(all, path@, i as int) == before.after_line(
                all[i as int],
                path@,
                (i + 1) as nat,
            ).after_lines(all, path@, i + 1));
            if let Err(message) = step {
                return Err(message);
            }
            i = i + 1;
        }
        flush_proxy_section(&mut section, &mut self.proxies, path, lines.len())
    }
}

/// What is known of a configuration file before it is read.
#[derive(Debug)]
pub enum ConfigFile {
    /// There is no such file.
    Missing,
    /// The file cannot be read, for this reason.
    Unreadable(String),
    /// What the file holds.
    Content(String),
}

/// The configuration that a file makes of the defaults. `current_dir` is the current
/// directory, or why it is not known; `explicit` says that the file was asked for.
pub open spec fn config_in_file(
    path: Seq<char>,
    explicit: bool,
    current_dir: Result<String, String>,
    limit: Option<usize>,
    file: ConfigFile,
) -> Result<ConfigView, Seq<char>> {
    match current_dir {
        Err(reason) => Err("Cannot read current dir: "@ + reason@),
        Ok(dir) => {
            let defaults = ConfigView::defaults(dir@, limit);
            match file {
                ConfigFile::Content(content) => {
                    let read = file_read(defaults, content@, path);
                    match read.problem {
                        Some(message) => Err(message),
                        None => Ok(read.config),
                    }
                },
                ConfigFile::Unreadable(reason) => Err(
                    "Cannot read config '"@ + path + "': "@ + reason@,
                ),
                ConfigFile::Missing => if explicit {
                    Err("Config file not found: "@ + path)
                } else {
                    Ok(defaults)
                },
            }
        },
    }
}

impl Config {
    /// The configuration to start from. `current_dir` is the current directory, or why
    /// it is not known; `limit` is the number of file descriptors that the process may
    /// open, where the system has such a limit.
    pub fn default_values(current_dir: &Result<String, String>, limit: Option<usize>) -> (r: Result<
        Config,
        String,
    >)
        ensures
            match r {
                Ok(config) => current_dir matches Ok(dir) && config@ == ConfigView::defaults(
                    dir@,
                    limit,
                ),
                Err(message) => current_dir matches Err(reason) && message@
                    == "Cannot read current dir: "@ + reason@,
            },
    {
        match current_dir {
            Ok(dir) => {
                let config = Config {
                    host: "127.0.0.1".to_owned(),
                    port: 8080,
                    root: dir.clone(),
                    spa_fallback: true,
                    proxies: Vec::new(),
                    runtime: RuntimeConfig::default_values(limit),
                };
                assert(config@.proxies =~= Seq::<ProxyRuleView>::empty());
                Ok(config)
            },
            Err(reason) => Err(rule::complaint("Cannot read current dir: ", reason.as_str())),
        }
    }

    /// The configuration that a file makes of the defaults.
    pub fn from_file_if_present(
        path: &str,
        explicit: bool,
        current_dir: &Result<String, String>,
        limit: Option<usize>,
        file: &ConfigFile,
    ) -> (r: Result<Config, String>)
        ensures
            match r {
                Ok(config) => config_in_file(path@, explicit, *current_dir, limit, *file) == Ok::<
                    ConfigView,
                    Seq<char>,
                >(config@),
                Err(message) => config_in_file(path@, explicit, *current_dir, limit, *file)
                    == Err::<ConfigView, Seq<char>>(message@),
            },
    {
        let mut config = Config::default_values(current_dir, limit)?;
        match file {
            ConfigFile::Content(content) => {
                config.apply_toml(content.as_str(), path)?;
            },
            ConfigFile::Unreadable(reason) => {
                let mut message = "Cannot read config '".to_owned();
                message.append(path);
                message.append("': ");
                message.append(reason.as_str());
                return Err(message);
            },
            ConfigFile::Missing => {
                if explicit {
                    return Err(rule::complaint("Config file not found: ", path));
                }
            },
        }
        Ok(config)
    }
}

/// The configuration file that the arguments from `from` on ask for, and whether they
/// do.
pub open spec fn config_path(args: Seq<Seq<char>>, from: int) -> Result<
    (Seq<char>, bool),
    Seq<char>,
>
    decreases args.len() - from,
{
    if from >= args.len() {
        Ok(("config.toml"@, false))
    } else if args[from] == "-c"@ || args[from] == "--config"@ {
        if from + 1 < args.len() {
            Ok((args[from + 1], true))
        } else {
            Err("Missing value for --config"@)
        }
    } else {
        config_path(args, from + 1)
    }
}

/// The name of the configuration file, and whether the arguments ask for it.
pub fn config_path_from_args(args: &[String]) -> (r: Result<(String, bool), String>)
    ensures
        match r {
            Ok((path, explicit)) => config_path(text::strings(args@), 0) == Ok::<
                (Seq<char>, bool),
                Seq<char>,
            >((path@, explicit)),
            Err(message) => config_path(text::strings(args@), 0) == Err::<
                (Seq<char>, bool),
                Seq<char>,
            >(message@),
        },
{
    let ghost all = text::strings(args@);
    let mut i: usize = 0;
    while i < args.len()
        invariant
            i <= args.len(),
            all == text::strings(args@),
            config_path(all, 0) == config_path(all, i as int),
        decreases args.len() - i,
    {
        assert(all[i as int] == args@[i as int]@);
        if text::same(args[i].as_str(), "-c") || text::same(args[i].as_str(), "--config") {
            if i + 1 < args.len() {
                assert(all[i + 1] == args@[i + 1]@);
                return Ok((args[i + 1].clone(), true));
            }
            return Err("Missing value for --config".to_owned());
        }
        i = i + 1;
    }
    Ok(("config.toml".to_owned(), false))
}

/// The long name of an option that takes a value.
pub open spec fn valued_option(arg: Seq<char>) -> Option<Seq<char>> {
    if arg == "-H"@ || arg == "--host"@ {
        Some("--host"@)
    } else if arg == "-p"@ || arg == "--port"@ {
        Some("--port"@)
    } else if arg == "-d"@ || arg == "--dir"@ {
        Some("--dir"@)
    } else if arg == "-c"@ || arg == "--config"@ {
        Some("--config"@)
    } else if arg == "--keep-alive-timeout"@ || arg == "--keep-alive-max"@ || arg
        == "--max-events"@ || arg == "--max-connections"@ || arg == "--max-request-size"@ || arg
        == "--proxy"@ {
        Some(arg)
    } else {
        None
    }
}

/// The size that the value of an option spells.
pub open spec fn size_arg(value: Seq<char>, option: Seq<char>) -> Result<usize, Seq<char>> {
    match number::number(value, usize::MAX as nat) {
        Some(n) => Ok(n as usize),
        None => Err("Invalid value for "@ + option + ": "@ + value),
    }
}

impl ConfigView {
    /// The configuration with `option`, an option's long name, set to `value`.
    pub open spec fn with_option(self, option: Seq<char>, value: Seq<char>) -> Result<
        ConfigView,
        Seq<char>,
    > {
        if option == "--host"@ {
            Ok(self.with_host(value))
        } else if option == "--port"@ {
            match number::number(value, u16::MAX as nat) {
                Some(port) => Ok(self.with_port(port as u16)),
                None => Err("Invalid port value: "@ + value),
            }
        } else if option == "--dir"@ {
            Ok(self.with_root(value))
        } else if option == "--config"@ {
            Ok(self)
        } else if option == "--proxy"@ {
            match rule::rule_in(value) {
                Ok(added) => Ok(self.with_rule(added)),
                Err(message) => Err(message),
            }
        } else {
            match size_arg(value, option) {
                Err(message) => Err(message),
                Ok(n) => Ok(
                    if option == "--keep-alive-timeout"@ {
                        self.with_keep_alive_timeout(n)
                    } else if option == "--keep-alive-max"@ {
                        self.with_keep_alive_max(n)
                    } else if option == "--max-events"@ {
                        self.with_max_events(n)
                    } else if option == "--max-connections"@ {
                        self.with_max_connections(n)
                    } else {
                        self.with_max_request_size(n)
                    },
                ),
            }
        }
    }

    /// The configuration after the arguments from `from` on; nothing where they ask for
    /// help.
    pub open spec fn with_args(self, args: Seq<Seq<char>>, from: int) -> Result<
        Option<ConfigView>,
        Seq<char>,
    >
        decreases args.len() - from,
    {
        if from >= args.len() {
            Ok(Some(self))
        } else if args[from] == "-h"@ || args[from] == "--help"@ {
            Ok(None)
        } else if valued_option(args[from]) is Some {
            let option = valued_option(args[from])->0;
            if from + 1 >= args.len() {
                Err("Missing value for "@ + option)
            } else {
                match self.with_option(option, args[from + 1]) {
                    Ok(config) => config.with_args(args, from + 2),
                    Err(message) => Err(message),
                }
            }
        } else if args[from] == "--no-spa"@ {
            self.with_spa_fallback(false).with_args(args, from + 1)
        } else if text::starts_with(args[from], "-"@) {
            Err("Unknown option: "@ + args[from])
        } else {
            self.with_root(args[from]).with_args(args, from + 1)
        }
    }
}

/// The configuration that the arguments and the configuration file give, before the
/// limits are adjusted to the system; nothing where the arguments ask for help.
pub open spec fn config_given(
    args: Seq<Seq<char>>,
    current_dir: Result<String, String>,
    limit: Option<usize>,
    file: ConfigFile,
) -> Result<Option<ConfigView>, Seq<char>> {
    match config_path(args, 0) {
        Err(message) => Err(message),
        Ok((path, explicit)) => match config_in_file(path, explicit, current_dir, limit, file) {
            Err(message) => Err(message),
            Ok(config) => config.with_args(args, 0),
        },
    }
}

/// Reads the value of an option as a size.
pub fn parse_usize_arg(value: &str, option: &str) -> (r: Result<usize, String>)
    ensures
        match r {
            Ok(n) => size_arg(value@, option@) == Ok::<usize, Seq<char>>(n),
            Err(message) => size_arg(value@, option@) == Err::<usize, Seq<char>>(message@),
        },
{
    let chars = text::chars_of(value);
    match number::read_usize(chars.as_slice()) {
        Some(n) => Ok(n),
        None => {
            let mut message = "Invalid value for ".to_owned();
            message.append(option);
            message.append(": ");
            message.append(value);
            Err(message)
        },
    }
}

/// The long name of an option that takes a value.
fn option_with_value(arg: &str) -> (r: Option<&str>)
    ensures
        r is Some <==> valued_option(arg@) is Some,
        r matches Some(option) ==> valued_option(arg@) == Some(option@),
{
    if text::same(arg, "-H") || text::same(arg, "--host") {
        Some("--host")
    } else if text::same(arg, "-p") || text::same(arg, "--port") {
        Some("--port")
    } else if text::same(arg, "-d") || text::same(arg, "--dir") {
        Some("--dir")
    } else if text::same(arg, "-c") || text::same(arg, "--config") {
        Some("--config")
    } else if text::same(arg, "--keep-alive-timeout") || text::same(arg, "--keep-alive-max")
        || text::same(arg, "--max-events") || text::same(arg, "--max-connections") || text::same(
        arg,
        "--max-request-size",
    ) || text::same(arg, "--proxy") {
        Some(arg)
    } else {
        None
    }
}

impl Config {
    /// Sets an option, given by its long name.
    fn set_option(&mut self, option: &str, value: &str) -> (r: Result<(), String>)
        ensures
            match r {
                Ok(()) => old(self)@.with_option(option@, value@) == Ok::<ConfigView, Seq<char>>(
                    final(self)@,
                ),
                Err(message) => old(self)@.with_option(option@, value@) == Err::<
                    ConfigView,
                    Seq<char>,
                >(message@),
            },
    {
        if text::same(option, "--host") {
            self.host = value.to_owned();
        } else if text::same(option, "--port") {
            let chars = text::chars_of(value);
            match number::read_u16(chars.as_slice()) {
                Some(port) => {
                    self.port = port;
                },
                None => {
                    return Err(rule::complaint("Invalid port value: ", value));
                },
            }
        } else if text::same(option, "--dir") {
            self.root = value.to_owned();
        } else if text::same(option, "--config") {
        } else if text::same(option, "--proxy") {
            let added = ProxyRule::parse(value)?;
            push_rule(&mut self.proxies, added);
        } else {
            let n = parse_usize_arg(value, option)?;
            if text::same(option, "--keep-alive-timeout") {
                self.runtime.keep_alive_timeout_secs = n as u64;
            } else if text::same(option, "--keep-alive-max") {
                self.runtime.keep_alive_max = n;
            } else if text::same(option, "--max-events") {
                self.runtime.max_events = n;
            } else if text::same(option, "--max-connections") {
                self.runtime.max_connections = n;
            } else {
                self.runtime.max_request_size = n;
            }
        }
        Ok(())
    }

    /// Takes the arguments; says whether the server is to run, which it is not where
    /// they ask for help.
    fn apply_args(&mut self, args: &[String]) -> (r: Result<bool, String>)
        ensures
            match r {
                Ok(run) => old(self)@.with_args(text::strings(args@), 0) == Ok::<
                    Option<ConfigView>,
                    Seq<char>,
                >(
                    if run {
                        Some(final(self)@)
                    } else {
                        None
                    },
                ),
                Err(message) => old(self)@.with_args(text::strings(args@), 0) == Err::<
                    Option<ConfigView>,
                    Seq<char>,
                >(message@),
            },
    {
        let ghost all = text::strings(args@);
        let ghost start = self@;
        let mut i: usize = 0;
        while i < args.len()
            invariant
                i <= args.len(),
                all == text::strings(args@),
                start == old(self)@,
                start.with_args(all, 0) == self@.with_args(all, i as int),
            decreases args.len() - i,
        {
            assert(all[i as int] == args@[i as int]@);
            let arg = args[i].as_str();
            if text::same(arg, "-h") || text::same(arg, "--help") {
                return Ok(false);
            }
            match option_with_value(arg) {
                Some(option) => {
                    if i + 1 >= args.len() {
                        return Err(rule::complaint("Missing value for ", option));
                    }
                    assert(all[i + 1] == args@[i + 1]@);
                    self.set_option(option, args[i + 1].as_str())?;
                    i = i + 2;
                },
                None => {
                    if text::same(arg, "--no-spa") {
                        self.spa_fallback = false;
                    } else {
                        let chars = text::chars_of(arg);
                        let dash = text::chars_of("-");
                        if text::without_prefix(chars.as_slice(), dash.as_slice()).is_some() {
                            return Err(rule::complaint("Unknown option: ", arg));
                        }
                        self.root = args[i].clone();
                    }
                    i = i + 1;
                },
            }
        }
        Ok(true)
    }

    /// Reads the configuration from the arguments and the configuration file that they
    /// name. The first result is the configuration, where they do not ask for help; the
    /// second is a warning for the user. `current_dir` is the current directory, or why
    /// it is not known; `limit` is the number of file descriptors that the process may
    /// open, where the system has such a limit.
    pub fn parse(
        args: &[String],
        current_dir: &Result<String, String>,
        limit: Option<usize>,
        file: &ConfigFile,
    ) -> (r: (Result<Option<Config>, String>, Option<String>))
        ensures
            match r.0 {
                Ok(Some(config)) => made(text::strings(args@), *current_dir, limit, *file) == Ok::<
                    Option<ConfigView>,
                    Seq<char>,
                >(Some(config@)),
                Ok(None) => made(text::strings(args@), *current_dir, limit, *file) == Ok::<
                    Option<ConfigView>,
                    Seq<char>,
                >(None),
                Err(message) => made(text::strings(args@), *current_dir, limit, *file) == Err::<
                    Option<ConfigView>,
                    Seq<char>,
                >(message@),
            },
            rule::maybe(r.1) == warned(text::strings(args@), *current_dir, limit, *file),
            r.0 matches Ok(Some(config)) ==> config.runtime.valid(),
    {
        let (path, explicit) = match config_path_from_args(args) {
            Ok(found) => found,
            Err(message) => {
                return (Err(message), None);
            },
        };
        let mut config = match Config::from_file_if_present(
            path.as_str(),
            explicit,
            current_dir,
            limit,
            file,
        ) {
            Ok(config) => config,
            Err(message) => {
                return (Err(message), None);
            },
        };
        match config.apply_args(args) {
            Ok(true) => {},
            Ok(false) => {
                return (Ok(None), None);
            },
            Err(message) => {
                return (Err(message), None);
            },
        }
        let warning = config.runtime.adjust_to_os_fd_limit(limit);
        match config.runtime.validate() {
            Ok(()) => (Ok(Some(config)), warning),
            Err(message) => (Err(message), warning),
        }
    }
}

/// The configuration to run with: the one that is given, with no more connections than
/// `limit` file descriptors allow, or what is wrong with it.
pub open spec fn made(
    args: Seq<Seq<char>>,
    current_dir: Result<String, String>,
    limit: Option<usize>,
    file: ConfigFile,
) -> Result<Option<ConfigView>, Seq<char>> {
    match config_given(args, current_dir, limit, file) {
        Err(message) => Err(message),
        Ok(None) => Ok(None),
        Ok(Some(given)) => match given.runtime.capped(limit).problem() {
            Some(problem) => Err(problem),
            None => Ok(Some(ConfigView { runtime: given.runtime.capped(limit), ..given })),
        },
    }
}

/// What to tell the user of the configuration that is given: that its connections are more
/// than `limit` file descriptors allow.
pub open spec fn warned(
    args: Seq<Seq<char>>,
    current_dir: Result<String, String>,
    limit: Option<usize>,
    file: ConfigFile,
) -> Option<Seq<char>> {
    match (config_given(args, current_dir, limit, file), limit) {
        (Ok(Some(given)), Some(limit)) if given.runtime.capped(Some(limit))
            != given.runtime => Some(given.runtime.cap_warning(limit)),
        _ => None,
    }
}

/// The rules that the arguments from `from` on add, in order.
pub open spec fn rules_given(args: Seq<Seq<char>>, from: int) -> Seq<ProxyRuleView>
    decreases args.len() - from,
{
    if from >= args.len() {
        Seq::empty()
    } else if valued_option(args[from]) is Some {
        if from + 1 >= args.len() {
            Seq::empty()
        } else if valued_option(args[from]) == Some("--proxy"@) {
            match rule::rule_in(args[from + 1]) {
                Ok(given) => seq![given] + rules_given(args, from + 2),
                Err(_) => rules_given(args, from + 2),
            }
        } else {
            rules_given(args, from + 2)
        }
    } else {
        rules_given(args, from + 1)
    }
}

/// Whether the arguments from `from` on set the option with the long name `option`. A
/// directory that stands alone sets `--dir`.
pub open spec fn sets(args: Seq<Seq<char>>, from: int, option: Seq<char>) -> bool
    decreases args.len() - from,
{
    if from >= args.len() {
        false
    } else if valued_option(args[from]) is Some {
        valued_option(args[from]) == Some(option) || (from + 1 < args.len() && sets(
            args,
            from + 2,
            option,
        ))
    } else if args[from] == "--no-spa"@ || text::starts_with(args[from], "-"@) {
        sets(args, from + 1, option)
    } else {
        option == "--dir"@ || sets(args, from + 1, option)
    }
}

/// Whether `option` is the long name of an option with one value: all but the rules,
/// which add up, and the name of the configuration file.
pub open spec fn is_scalar(option: Seq<char>) -> bool {
    ||| option == "--host"@
    ||| option == "--port"@
    ||| option == "--dir"@
    ||| option == "--keep-alive-timeout"@
    ||| option == "--keep-alive-max"@
    ||| option == "--max-events"@
    ||| option == "--max-connections"@
    ||| option == "--max-request-size"@
}

/// Rules on the command line are added after those of the configuration file, in
/// order.
pub proof fn law_rules_are_appended(config: ConfigView, args: Seq<Seq<char>>, from: int)
    requires
        0 <= from <= args.len(),
    ensures
        config.with_args(args, from) matches Ok(Some(given)) ==> given.proxies == config.proxies
            + rules_given(args, from),
    decreases args.len() - from,
{
    if from >= args.len() {
        assert(config.proxies + Seq::<ProxyRuleView>::empty() == config.proxies);
    } else if args[from] == "-h"@ || args[from] == "--help"@ {
    } else if valued_option(args[from]) is Some {
        let option = valued_option(args[from])->0;
        if from + 1 < args.len() {
            if let Ok(next) = config.with_option(option, args[from + 1]) {
                law_rules_are_appended(next, args, from + 2);
                lemma_option_names();
                if option == "--proxy"@ {
                    let added = rule::rule_in(args[from + 1])->Ok_0;
                    assert(config.proxies.push(added) + rules_given(args, from + 2)
                        == config.proxies + (seq![added] + rules_given(args, from + 2)));
                }
            }
        }
    } else if args[from] == "--no-spa"@ {
        law_rules_are_appended(config.with_spa_fallback(false), args, from + 1);
    } else {
        law_rules_are_appended(config.with_root(args[from]), args, from + 1);
    }
}

/// The names of options differ.
pub proof fn lemma_option_names()
    ensures
        "--proxy"@ != "--host"@,
        "--proxy"@ != "--port"@,
        "--proxy"@ != "--dir"@,
        "--proxy"@ != "--config"@,
        "--host"@ != "--port"@,
        "--host"@ != "--dir"@,
        "--host"@ != "--config"@,
        "--port"@ != "--dir"@,
        "--port"@ != "--config"@,
        "--dir"@ != "--config"@,
        forall|o: Seq<char>|
            o.len() > 8 ==> o != "--host"@ && o != "--port"@ && o != "--dir"@ && o != "--config"@
                && o != "--proxy"@,
        "--keep-alive-timeout"@.len() > 8,
        "--keep-alive-max"@.len() > 8,
        "--max-events"@.len() > 8,
        "--max-connections"@.len() > 8,
        "--max-request-size"@.len() > 8,
        "--keep-alive-timeout"@ != "--keep-alive-max"@,
        "--keep-alive-timeout"@ != "--max-events"@,
        "--keep-alive-timeout"@ != "--max-connections"@,
        "--keep-alive-timeout"@ != "--max-request-size"@,
        "--keep-alive-max"@ != "--max-events"@,
        "--keep-alive-max"@ != "--max-connections"@,
        "--keep-alive-max"@ != "--max-request-size"@,
        "--max-events"@ != "--max-connections"@,
        "--max-events"@ != "--max-request-size"@,
        "--max-connections"@ != "--max-request-size"@,
{
    reveal_strlit("--proxy");
    reveal_strlit("--host");
    reveal_strlit("--port");
    reveal_strlit("--dir");
    reveal_strlit("--config");
    reveal_strlit("--keep-alive-timeout");
    reveal_strlit("--keep-alive-max");
    reveal_strlit("--max-events");
    reveal_strlit("--max-connections");
    reveal_strlit("--max-request-size");
    assert("--proxy"@[2] == 'p' && "--proxy"@[3] == 'r');
    assert("--host"@[2] == 'h');
    assert("--port"@[2] == 'p' && "--port"@[3] == 'o');
    assert("--dir"@[2] == 'd');
    assert("--config"@[2] == 'c');
    assert("--keep-alive-timeout"@.len() == 20);
    assert("--keep-alive-max"@.len() == 16);
    assert("--max-events"@.len() == 12);
    assert("--max-connections"@.len() == 17);
    assert("--max-request-size"@.len() == 18);
}

/// Setting one option twice keeps the second value only, and options do not disturb
/// each other.
proof fn lemma_options_commute(
    config: ConfigView,
    option: Seq<char>,
    value: Seq<char>,
    other: Seq<char>,
    other_value: Seq<char>,
)
    requires
        is_scalar(option),
        valued_option(other) is Some,
        config.with_option(option, value) is Ok,
    ensures
        ({
            let name = valued_option(other)->0;
            let changed = config.with_option(option, value)->Ok_0;
            let plain = config.with_option(name, other_value);
            let both = changed.with_option(name, other_value);
            match plain {
                Ok(next) => if name == option {
                    both == Ok::<ConfigView, Seq<char>>(next)
                } else {
                    both is Ok && next.with_option(option, value) == both
                },
                Err(message) => both == Err::<ConfigView, Seq<char>>(message),
            }
        }),
{
    lemma_option_names();
}

/// What the command line sets overrides what the configuration file, or anything else
/// before it, has set: for each option with one value, the outcome does not depend on
/// the value that was there.
pub proof fn law_command_line_overrides(
    config: ConfigView,
    option: Seq<char>,
    value: Seq<char>,
    args: Seq<Seq<char>>,
    from: int,
)
    requires
        0 <= from <= args.len(),
        is_scalar(option),
        config.with_option(option, value) is Ok,
        sets(args, from, option),
    ensures
        (config.with_option(option, value)->Ok_0).with_args(args, from) == config.with_args(
            args,
            from,
        ),
    decreases args.len() - from,
{
    let changed = config.with_option(option, value)->Ok_0;
    lemma_option_names();
    if args[from] == "-h"@ || args[from] == "--help"@ {
    } else if valued_option(args[from]) is Some {
        let name = valued_option(args[from])->0;
        if from + 1 < args.len() {
            lemma_options_commute(config, option, value, args[from], args[from + 1]);
            if let Ok(next) = config.with_option(name, args[from + 1]) {
                if name != option {
                    law_command_line_overrides(next, option, value, args, from + 2);
                }
            }
        }
    } else if args[from] == "--no-spa"@ {
        let next = config.with_spa_fallback(false);
        assert(next.with_option(option, value) == Ok::<ConfigView, Seq<char>>(
            changed.with_spa_fallback(false),
        ));
        law_command_line_overrides(next, option, value, args, from + 1);
    } else if !text::starts_with(args[from], "-"@) {
        let next = config.with_root(args[from]);
        if option == "--dir"@ {
            assert(changed.with_root(args[from]) == next);
        } else {
            assert(next.with_option(option, value) == Ok::<ConfigView, Seq<char>>(
                changed.with_root(args[from]),
            ));
            law_command_line_overrides(next, option, value, args, from + 1);
        }
    }
}

/// The two ways to write a rule in a configuration file mean the same: a line of a
/// `[proxy]` section, or a `[[proxy]]` section with a prefix and a target.
pub proof fn law_two_ways_to_write_a_rule(
    config: ConfigView,
    prefix: Seq<char>,
    target: Seq<char>,
    path: Seq<char>,
    line: nat,
)
    requires
        toml::quoted(prefix) is Some,
        toml::quoted(target) is Some,
    ensures
        ({
            let in_map = (Reading { config, section: SectionView::ProxyMap, problem: None }).set(
                toml::key(prefix),
                target,
                path,
                line,
            );
            let in_section = (Reading {
                config,
                section: SectionView::Proxy { prefix: None, target: None },
                problem: None,
            }).set("prefix"@, prefix, path, line).set("target"@, target, path, line).flushed(
                SectionView::Root,
                path,
                line,
            );
            in_map.config == in_section.config && in_map.problem == in_section.problem
        }),
{
    reveal_strlit("prefix");
    reveal_strlit("target");
    assert("prefix"@[0] == 'p');
    assert("target"@[0] == 't');
}

/// Whether the arguments from `from` on switch the fallback off.
pub open spec fn switches_off(args: Seq<Seq<char>>, from: int) -> bool
    decreases args.len() - from,
{
    if from >= args.len() {
        false
    } else if valued_option(args[from]) is Some {
        from + 1 < args.len() && switches_off(args, from + 2)
    } else {
        args[from] == "--no-spa"@ || switches_off(args, from + 1)
    }
}

/// The command line can switch the fallback off, whatever the configuration file says,
/// and does nothing else to it.
pub proof fn law_fallback_switch(config: ConfigView, args: Seq<Seq<char>>, from: int)
    requires
        0 <= from <= args.len(),
    ensures
        config.with_args(args, from) matches Ok(Some(given)) ==> given.spa_fallback == (
        config.spa_fallback && !switches_off(args, from)),
    decreases args.len() - from,
{
    if from >= args.len() || args[from] == "-h"@ || args[from] == "--help"@ {
    } else if valued_option(args[from]) is Some {
        if from + 1 < args.len() {
            if let Ok(next) = config.with_option(valued_option(args[from])->0, args[from + 1]) {
                law_fallback_switch(next, args, from + 2);
            }
        }
    } else if args[from] == "--no-spa"@ {
        law_fallback_switch(config.with_spa_fallback(false), args, from + 1);
    } else {
        law_fallback_switch(config.with_root(args[from]), args, from + 1);
    }
}

} // verus!
