//! The configuration of the application.

use vstd::prelude::*;
use crate::ai;
use crate::paths;
use crate::utils::term;

verus! {

/// Terminal configuration.
#[derive(Debug, Clone)]
pub struct TerminalConfig {
    /// Default shell to use.
    pub shell: String,
    /// Terminal size (columns).
    pub columns: Option<u16>,
    /// Terminal size (rows).
    pub rows: Option<u16>,
}

/// AI service configuration.
#[derive(Debug, Clone)]
pub struct AiConfig {
    /// OpenAI API key.
    pub api_key: Option<String>,
    /// Model to use.
    pub model: String,
    /// Organization ID (if applicable).
    pub org_id: Option<String>,
    /// Maximum tokens to generate.
    pub max_tokens: Option<u32>,
}

/// UI preferences.
#[derive(Debug, Clone)]
pub struct UiConfig {
    /// Color theme.
    pub theme: String,
    /// Font size.
    pub font_size: u8,
    /// Show line numbers.
    pub show_line_numbers: bool,
}

/// Main application configuration.
#[derive(Debug, Clone)]
pub struct Config {
    /// Terminal configuration.
    pub terminal: TerminalConfig,
    /// AI service configuration.
    pub ai: AiConfig,
    /// UI preferences.
    pub ui: UiConfig,
}

/// What a configuration file says; what it leaves out is missing.
#[derive(Debug)]
pub struct FileConfig {
    pub shell: Option<String>,
    pub columns: Option<u16>,
    pub rows: Option<u16>,
    pub api_key: Option<String>,
    pub model: Option<String>,
    pub org_id: Option<String>,
    pub max_tokens: Option<u32>,
    pub ui: Option<UiConfig>,
}

/// The tokens to generate where the configuration does not say.
pub const DEFAULT_MAX_TOKENS: u32 = 2048;

impl Default for UiConfig {
    fn default() -> (r: Self)
        ensures
            r.theme@ == "dark"@,
            r.font_size == 12,
            r.show_line_numbers,
    {
        UiConfig { theme: "dark".to_owned(), font_size: 12, show_line_numbers: true }
    }
}

impl TerminalConfig {
    /// The default, with the shell that the environment names.
    pub fn from_env(shell: Option<&str>) -> (r: Self)
        ensures
            r.shell@ == match shell {
                Some(s) => s@,
                None => term::FALLBACK_SHELL@,
            },
            r.columns is None,
            r.rows is None,
    {
        TerminalConfig { shell: term::get_default_shell(shell), columns: None, rows: None }
    }
}

impl AiConfig {
    /// The default, with the key and the organization that the environment
    /// names.
    pub fn from_env(api_key: Option<String>, org_id: Option<String>) -> (r: Self)
        ensures
            r.api_key == api_key,
            r.org_id == org_id,
            r.model@ == ai::DEFAULT_MODEL@,
            r.max_tokens == Some(DEFAULT_MAX_TOKENS),
    {
        AiConfig {
            api_key,
            model: ai::DEFAULT_MODEL.to_owned(),
            org_id,
            max_tokens: Some(DEFAULT_MAX_TOKENS),
        }
    }
}

/// The configuration directory could not be found.
#[derive(Debug, Clone, Copy, PartialEq, Eq, Structural)]
pub struct NoConfigDir;

impl NoConfigDir {
    /// The message for the error.
    pub fn message(&self) -> (r: String)
        ensures
            r@ == "Could not determine config directory"@,
    {
        "Could not determine config directory".to_owned()
    }
}

/// Gets the configuration directory, below the one for all programs.
pub fn get_config_dir(config_dir: Option<&str>) -> (r: Result<String, NoConfigDir>)
    ensures
        match r {
            Ok(dir) => match config_dir {
                Some(base) => dir@ == paths::join(base@, "supaterm"@),
                None => false,
            },
            Err(_) => config_dir is None,
        },
{
    match config_dir {
        Some(base) => Ok(paths::join_paths(base, "supaterm")),
        None => Err(NoConfigDir),
    }
}

/// The configuration file in the configuration directory.
pub fn config_file(dir: &str) -> (r: String)
    ensures
        r@ == paths::join(dir@, "config.toml"@),
{
    paths::join_paths(dir, "config.toml")
}

impl Config {
    /// The default configuration, from what the environment names.
    pub fn from_env(shell: Option<&str>, api_key: Option<String>, org_id: Option<String>) -> (r:
        Self)
        ensures
            r.terminal.shell@ == match shell {
                Some(s) => s@,
                None => term::FALLBACK_SHELL@,
            },
            r.terminal.columns is None,
            r.terminal.rows is None,
            r.ai.api_key == api_key,
            r.ai.org_id == org_id,
            r.ai.model@ == ai::DEFAULT_MODEL@,
            r.ai.max_tokens == Some(DEFAULT_MAX_TOKENS),
            r.ui.theme@ == "dark"@,
            r.ui.font_size == 12,
            r.ui.show_line_numbers,
    {
        Config {
            terminal: TerminalConfig::from_env(shell),
            ai: AiConfig::from_env(api_key, org_id),
            ui: UiConfig::default(),
        }
    }

    /// The configuration that a file gives. The shell, the model and the
    /// preferences come from the default where the file leaves them out.
    pub fn from_file(file: FileConfig, default: Config) -> (r: Self)
        ensures
            r == (Config {
                terminal: TerminalConfig {
                    shell: match file.shell {
                        Some(s) => s,
                        None => default.terminal.shell,
                    },
                    columns: file.columns,
                    rows: file.rows,
                },
                ai: AiConfig {
                    api_key: file.api_key,
                    model: match file.model {
                        Some(m) => m,
                        None => default.ai.model,
                    },
                    org_id: file.org_id,
                    max_tokens: file.max_tokens,
                },
                ui: match file.ui {
                    Some(u) => u,
                    None => default.ui,
                },
            }),
    {
        let shell = match file.shell {
            Some(s) => s,
            None => default.terminal.shell,
        };
        let model = match file.model {
            Some(m) => m,
            None => default.ai.model,
        };
        let ui = match file.ui {
            Some(u) => u,
            None => default.ui,
        };
        Config {
            terminal: TerminalConfig { shell, columns: file.columns, rows: file.rows },
            ai: AiConfig {
                api_key: file.api_key,
                model,
                org_id: file.org_id,
                max_tokens: file.max_tokens,
            },
            ui,
        }
    }

    /// Overrides the configuration with command line arguments.
    pub fn override_with(&mut self, shell: Option<String>, api_key: Option<String>)
        ensures
            *final(self) == (Config {
                terminal: TerminalConfig {
                    shell: match shell {
                        Some(s) => s,
                        None => old(self).terminal.shell,
                    },
                    ..old(self).terminal
                },
                ai: AiConfig {
                    api_key: match api_key {
                        Some(k) => Some(k),
                        None => old(self).ai.api_key,
                    },
                    ..old(self).ai
                },
                ..*old(self)
            }),
    {
        if let Some(s) = shell {
            self.terminal.shell = s;
        }
        if let Some(k) = api_key {
            self.ai.api_key = Some(k);
        }
    }

    /// Falls back to the default shell where the configured one is not
    /// available; whether it did.
    pub fn ensure_shell(&mut self, available: bool, shell: Option<&str>) -> (r: bool)
        ensures
            r == !available,
            final(self).terminal.shell@ == if available {
                old(self).terminal.shell@
            } else {
                match shell {
                    Some(s) => s@,
                    None => term::FALLBACK_SHELL@,
                }
            },
            final(self).terminal.columns == old(self).terminal.columns,
            final(self).terminal.rows == old(self).terminal.rows,
            final(self).ai == old(self).ai,
            final(self).ui == old(self).ui,
    {
        if available {
            return false;
        }
        self.terminal.shell = term::get_default_shell(shell);
        true
    }

    /// The configuration of the AI client.
    pub fn ai_client_config(&self) -> (r: ai::Config)
        ensures
            r.api_key@ == match self.ai.api_key {
                Some(k) => k@,
                None => seq![],
            },
            r.model@ == self.ai.model@,
            match (r.organization_id, self.ai.org_id) {
                (Some(a), Some(b)) => a@ == b@,
                (None, None) => true,
                _ => false,
            },
            r.max_tokens == match self.ai.max_tokens {
                Some(n) => Some(n),
                None => Some(DEFAULT_MAX_TOKENS),
            },
    {
        let api_key = match &self.ai.api_key {
            Some(k) => k.clone(),
            None => String::new(),
        };
        let organization_id = match &self.ai.org_id {
            Some(id) => Some(id.clone()),
            None => None,
        };
        let max_tokens = match self.ai.max_tokens {
            Some(n) => Some(n),
            None => Some(DEFAULT_MAX_TOKENS),
        };
        ai::Config { api_key, model: self.ai.model.clone(), organization_id, max_tokens }
    }
}

} // verus!
