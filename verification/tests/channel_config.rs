use game_replication::channel::{
    connection_config, ChannelConfig, ClientChannel, SendType, ServerChannel,
    AVAILABLE_BYTES_PER_TICK, PROTOCOL_ID,
};

#[test]
fn channel_identifiers_are_fixed() {
    assert_eq!(u8::from(ClientChannel::Command), 0);
    assert_eq!(u8::from(ClientChannel::Input), 1);
    assert_eq!(u8::from(ClientChannel::Position), 3);
    assert_eq!(u8::from(ServerChannel::NetworkedEntities), 0);
    assert_eq!(u8::from(ServerChannel::ServerMessages), 1);
    assert_eq!(ClientChannel::Position.id(), 3);
    assert_eq!(ServerChannel::ServerMessages.id(), 1);
}

#[test]
fn protocol_identifier_is_seven() {
    assert_eq!(PROTOCOL_ID, 7);
}

#[test]
fn client_channels_are_reliable_and_ordered() {
    let channels = ClientChannel::channels_config();
    let reliable = SendType::ReliableOrdered { resend_time_millis: 0 };
    let budget = 5 * 1024 * 1024;
    assert_eq!(
        channels,
        vec![
            ChannelConfig { channel_id: 1, max_memory_usage_bytes: budget, send_type: reliable },
            ChannelConfig { channel_id: 0, max_memory_usage_bytes: budget, send_type: reliable },
            ChannelConfig { channel_id: 3, max_memory_usage_bytes: budget, send_type: reliable },
        ]
    );
}

#[test]
fn server_channels_split_by_delivery_policy() {
    let channels = ServerChannel::channels_config();
    let budget = 10 * 1024 * 1024;
    assert_eq!(
        channels,
        vec![
            ChannelConfig {
                channel_id: 0,
                max_memory_usage_bytes: budget,
                send_type: SendType::Unreliable
            },
            ChannelConfig {
                channel_id: 1,
                max_memory_usage_bytes: budget,
                send_type: SendType::ReliableOrdered { resend_time_millis: 200 }
            },
        ]
    );
}

#[test]
fn connection_config_joins_both_directions() {
    let config = connection_config();
    assert_eq!(config.available_bytes_per_tick, 1024 * 1024);
    assert_eq!(config.available_bytes_per_tick, AVAILABLE_BYTES_PER_TICK);
    assert_eq!(config.client_channels_config, ClientChannel::channels_config());
    assert_eq!(config.server_channels_config, ServerChannel::channels_config());
}

#[test]
fn channel_identifiers_are_distinct_within_a_direction() {
    let config = connection_config();
    for channels in [&config.client_channels_config, &config.server_channels_config] {
        for i in 0..channels.len() {
            for j in (i + 1)..channels.len() {
                assert_ne!(channels[i].channel_id, channels[j].channel_id);
            }
        }
    }
}
