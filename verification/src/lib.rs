use vstd::prelude::*;
use crate::config::Config;
use crate::config_file::{config_after_file, config_file_error, lemma_file_views, Yaskkserv2ConfigFile};
use crate::error::SkkError;
use crate::outside::{fx_bytes_map_contents, FxBytesMap};

pub mod byte_map;
pub mod bytes;
pub mod candidates;
pub mod command_line;
pub mod config;
pub mod config_file;
pub mod dictionary;
pub mod dictionary_creator;
pub mod dictionary_format;
pub mod dictionary_lookup;
pub mod dictionary_reader;
pub mod dictionary_roundtrip;
pub mod encoding;
pub mod encoding_simple;
pub mod error;
pub mod google;
pub mod google_cache;
pub mod jisyo_creator;
pub mod jisyo_reader;
pub mod jisyo_skip;
pub mod jisyo_line_ends;
pub mod make_dictionary;
pub mod merge_laws;
pub mod on_memory;
pub mod outside;
pub mod request;
pub mod server;

verus! {

/// The start of the server: the settings it runs with, from the settings of its command line
/// and the settings of its config file (`None` where the file cannot be opened; see
/// `Yaskkserv2ConfigFile::read_settings`). `Ok(None)` where the command line asked for the help
/// text or the version; `CommandLine` where the config file holds a setting that is refused
/// (see `config_file_error`, of which `dictionary_exists` and `listen_address_is_ip` tell what
/// the file system and the address parser say of the file's values).
pub fn run_yaskkserv2(
    command_line_config: &Config,
    is_help_exit: bool,
    config_file: Option<&FxBytesMap>,
    dictionary_exists: bool,
    listen_address_is_ip: bool,
) -> (r: Result<Option<Config>, SkkError>)
    ensures
        match r {
            Ok(None) => is_help_exit,
            Ok(Some(c)) => !is_help_exit && match config_file {
                None => c.view_eq(*command_line_config),
                Some(m) => config_file_error(*command_line_config, fx_bytes_map_contents(*m), dictionary_exists,
                    listen_address_is_ip) is None && config_after_file(*command_line_config, fx_bytes_map_contents(*m), c),
            },
            Err(e) => !is_help_exit && e == SkkError::CommandLine && match config_file {
                None => false,
                Some(m) => config_file_error(*command_line_config, fx_bytes_map_contents(*m), dictionary_exists,
                    listen_address_is_ip) is Some,
            },
        },
{
    if is_help_exit {
        return Ok(None);
    }
    let mut config_file_settings = Yaskkserv2ConfigFile::new(command_line_config);
    let ghost start = config_file_settings.config;
    match config_file {
        None => {
            let c = config_file_settings.get_config();
            assert(c.view_eq(*command_line_config));
            Ok(Some(c))
        },
        Some(m) => match config_file_settings.validate_and_set_config(m, dictionary_exists, listen_address_is_ip) {
            Ok(()) => {
                let c = config_file_settings.get_config();
                proof {
                    lemma_file_views(*command_line_config, start, fx_bytes_map_contents(*m),
                        dictionary_exists, listen_address_is_ip, c);
                }
                Ok(Some(c))
            },
            Err(_) => {
                proof {
                    lemma_file_views(*command_line_config, start, fx_bytes_map_contents(*m),
                        dictionary_exists, listen_address_is_ip, config_file_settings.config);
                }
                Err(SkkError::CommandLine)
            },
        },
    }
}

} // verus!
