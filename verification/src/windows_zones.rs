//! Windows names of time zones and the IANA zones they stand for.

use vstd::prelude::*;

verus! {

/// How many Windows zone names are known.
pub const WINDOWS_ZONE_COUNT: usize = 141;

/// A Windows zone name and its IANA name, by position.
pub open spec fn windows_zone(i: int) -> (Seq<char>, Seq<char>) {
    if i == 0 {
        ("Dateline Standard Time"@, "Etc/GMT+12"@)
    } else if i == 1 {
        ("UTC-11"@, "Etc/GMT+11"@)
    } else if i == 2 {
        ("Aleutian Standard Time"@, "America/Adak"@)
    } else if i == 3 {
        ("Hawaiian Standard Time"@, "Pacific/Honolulu"@)
    } else if i == 4 {
        ("Marquesas Standard Time"@, "Pacific/Marquesas"@)
    } else if i == 5 {
        ("Alaskan Standard Time"@, "America/Anchorage"@)
    } else if i == 6 {
        ("UTC-09"@, "Etc/GMT+9"@)
    } else if i == 7 {
        ("Pacific Standard Time (Mexico)"@, "America/Tijuana"@)
    } else if i == 8 {
        ("UTC-08"@, "Etc/GMT+8"@)
    } else if i == 9 {
        ("Pacific Standard Time"@, "America/Los_Angeles"@)
    } else if i == 10 {
        ("US Mountain Standard Time"@, "America/Phoenix"@)
    } else if i == 11 {
        ("Mountain Standard Time (Mexico)"@, "America/Mazatlan"@)
    } else if i == 12 {
        ("Mountain Standard Time"@, "America/Denver"@)
    } else if i == 13 {
        ("Yukon Standard Time"@, "America/Whitehorse"@)
    } else if i == 14 {
        ("Central America Standard Time"@, "America/Guatemala"@)
    } else if i == 15 {
        ("Central Standard Time"@, "America/Chicago"@)
    } else if i == 16 {
        ("Easter Island Standard Time"@, "Pacific/Easter"@)
    } else if i == 17 {
        ("Central Standard Time (Mexico)"@, "America/Mexico_City"@)
    } else if i == 18 {
        ("Canada Central Standard Time"@, "America/Regina"@)
    } else if i == 19 {
        ("SA Pacific Standard Time"@, "America/Bogota"@)
    } else if i == 20 {
        ("Eastern Standard Time (Mexico)"@, "America/Cancun"@)
    } else if i == 21 {
        ("Eastern Standard Time"@, "America/New_York"@)
    } else if i == 22 {
        ("Haiti Standard Time"@, "America/Port-au-Prince"@)
    } else if i == 23 {
        ("Cuba Standard Time"@, "America/Havana"@)
    } else if i == 24 {
        ("US Eastern Standard Time"@, "America/Indiana/Indianapolis"@)
    } else if i == 25 {
        ("Turks And Caicos Standard Time"@, "America/Grand_Turk"@)
    } else if i == 26 {
        ("Paraguay Standard Time"@, "America/Asuncion"@)
    } else if i == 27 {
        ("Atlantic Standard Time"@, "America/Halifax"@)
    } else if i == 28 {
        ("Venezuela Standard Time"@, "America/Caracas"@)
    } else if i == 29 {
        ("Central Brazilian Standard Time"@, "America/Cuiaba"@)
    } else if i == 30 {
        ("SA Western Standard Time"@, "America/La_Paz"@)
    } else if i == 31 {
        ("Pacific SA Standard Time"@, "America/Santiago"@)
    } else if i == 32 {
        ("Newfoundland Standard Time"@, "America/St_Johns"@)
    } else if i == 33 {
        ("Tocantins Standard Time"@, "America/Araguaina"@)
    } else if i == 34 {
        ("E. South America Standard Time"@, "America/Sao_Paulo"@)
    } else if i == 35 {
        ("SA Eastern Standard Time"@, "America/Cayenne"@)
    } else if i == 36 {
        ("Argentina Standard Time"@, "America/Argentina/Buenos_Aires"@)
    } else if i == 37 {
        ("Greenland Standard Time"@, "America/Nuuk"@)
    } else if i == 38 {
        ("Montevideo Standard Time"@, "America/Montevideo"@)
    } else if i == 39 {
        ("Magallanes Standard Time"@, "America/Punta_Arenas"@)
    } else if i == 40 {
        ("Saint Pierre Standard Time"@, "America/Miquelon"@)
    } else if i == 41 {
        ("Bahia Standard Time"@, "America/Bahia"@)
    } else if i == 42 {
        ("UTC-02"@, "Etc/GMT+2"@)
    } else if i == 43 {
        ("Mid-Atlantic Standard Time"@, "Etc/GMT+2"@)
    } else if i == 44 {
        ("Azores Standard Time"@, "Atlantic/Azores"@)
    } else if i == 45 {
        ("Cape Verde Standard Time"@, "Atlantic/Cape_Verde"@)
    } else if i == 46 {
        ("UTC"@, "Etc/UTC"@)
    } else if i == 47 {
        ("Coordinated Universal Time"@, "Etc/UTC"@)
    } else if i == 48 {
        ("GMT Standard Time"@, "Europe/London"@)
    } else if i == 49 {
        ("Greenwich Standard Time"@, "Atlantic/Reykjavik"@)
    } else if i == 50 {
        ("Sao Tome Standard Time"@, "Africa/Sao_Tome"@)
    } else if i == 51 {
        ("Morocco Standard Time"@, "Africa/Casablanca"@)
    } else if i == 52 {
        ("W. Europe Standard Time"@, "Europe/Berlin"@)
    } else if i == 53 {
        ("Central Europe Standard Time"@, "Europe/Budapest"@)
    } else if i == 54 {
        ("Romance Standard Time"@, "Europe/Paris"@)
    } else if i == 55 {
        ("Central European Standard Time"@, "Europe/Warsaw"@)
    } else if i == 56 {
        ("W. Central Africa Standard Time"@, "Africa/Lagos"@)
    } else if i == 57 {
        ("Jordan Standard Time"@, "Asia/Amman"@)
    } else if i == 58 {
        ("GTB Standard Time"@, "Europe/Bucharest"@)
    } else if i == 59 {
        ("Middle East Standard Time"@, "Asia/Beirut"@)
    } else if i == 60 {
        ("Egypt Standard Time"@, "Africa/Cairo"@)
    } else if i == 61 {
        ("E. Europe Standard Time"@, "Europe/Chisinau"@)
    } else if i == 62 {
        ("Syria Standard Time"@, "Asia/Damascus"@)
    } else if i == 63 {
        ("West Bank Standard Time"@, "Asia/Hebron"@)
    } else if i == 64 {
        ("South Africa Standard Time"@, "Africa/Johannesburg"@)
    } else if i == 65 {
        ("FLE Standard Time"@, "Europe/Kyiv"@)
    } else if i == 66 {
        ("Israel Standard Time"@, "Asia/Jerusalem"@)
    } else if i == 67 {
        ("South Sudan Standard Time"@, "Africa/Juba"@)
    } else if i == 68 {
        ("Kaliningrad Standard Time"@, "Europe/Kaliningrad"@)
    } else if i == 69 {
        ("Sudan Standard Time"@, "Africa/Khartoum"@)
    } else if i == 70 {
        ("Libya Standard Time"@, "Africa/Tripoli"@)
    } else if i == 71 {
        ("Namibia Standard Time"@, "Africa/Windhoek"@)
    } else if i == 72 {
        ("Arabic Standard Time"@, "Asia/Baghdad"@)
    } else if i == 73 {
        ("Turkey Standard Time"@, "Europe/Istanbul"@)
    } else if i == 74 {
        ("Arab Standard Time"@, "Asia/Riyadh"@)
    } else if i == 75 {
        ("Belarus Standard Time"@, "Europe/Minsk"@)
    } else if i == 76 {
        ("Russian Standard Time"@, "Europe/Moscow"@)
    } else if i == 77 {
        ("E. Africa Standard Time"@, "Africa/Nairobi"@)
    } else if i == 78 {
        ("Volgograd Standard Time"@, "Europe/Volgograd"@)
    } else if i == 79 {
        ("Iran Standard Time"@, "Asia/Tehran"@)
    } else if i == 80 {
        ("Arabian Standard Time"@, "Asia/Dubai"@)
    } else if i == 81 {
        ("Astrakhan Standard Time"@, "Europe/Astrakhan"@)
    } else if i == 82 {
        ("Azerbaijan Standard Time"@, "Asia/Baku"@)
    } else if i == 83 {
        ("Russia Time Zone 3"@, "Europe/Samara"@)
    } else if i == 84 {
        ("Mauritius Standard Time"@, "Indian/Mauritius"@)
    } else if i == 85 {
        ("Saratov Standard Time"@, "Europe/Saratov"@)
    } else if i == 86 {
        ("Georgian Standard Time"@, "Asia/Tbilisi"@)
    } else if i == 87 {
        ("Caucasus Standard Time"@, "Asia/Yerevan"@)
    } else if i == 88 {
        ("Afghanistan Standard Time"@, "Asia/Kabul"@)
    } else if i == 89 {
        ("West Asia Standard Time"@, "Asia/Tashkent"@)
    } else if i == 90 {
        ("Ekaterinburg Standard Time"@, "Asia/Yekaterinburg"@)
    } else if i == 91 {
        ("Pakistan Standard Time"@, "Asia/Karachi"@)
    } else if i == 92 {
        ("Qyzylorda Standard Time"@, "Asia/Qyzylorda"@)
    } else if i == 93 {
        ("India Standard Time"@, "Asia/Kolkata"@)
    } else if i == 94 {
        ("Sri Lanka Standard Time"@, "Asia/Colombo"@)
    } else if i == 95 {
        ("Nepal Standard Time"@, "Asia/Kathmandu"@)
    } else if i == 96 {
        ("Central Asia Standard Time"@, "Asia/Bishkek"@)
    } else if i == 97 {
        ("Bangladesh Standard Time"@, "Asia/Dhaka"@)
    } else if i == 98 {
        ("Omsk Standard Time"@, "Asia/Omsk"@)
    } else if i == 99 {
        ("Myanmar Standard Time"@, "Asia/Yangon"@)
    } else if i == 100 {
        ("SE Asia Standard Time"@, "Asia/Bangkok"@)
    } else if i == 101 {
        ("Altai Standard Time"@, "Asia/Barnaul"@)
    } else if i == 102 {
        ("W. Mongolia Standard Time"@, "Asia/Hovd"@)
    } else if i == 103 {
        ("North Asia Standard Time"@, "Asia/Krasnoyarsk"@)
    } else if i == 104 {
        ("N. Central Asia Standard Time"@, "Asia/Novosibirsk"@)
    } else if i == 105 {
        ("Tomsk Standard Time"@, "Asia/Tomsk"@)
    } else if i == 106 {
        ("China Standard Time"@, "Asia/Shanghai"@)
    } else if i == 107 {
        ("North Asia East Standard Time"@, "Asia/Irkutsk"@)
    } else if i == 108 {
        ("Singapore Standard Time"@, "Asia/Singapore"@)
    } else if i == 109 {
        ("W. Australia Standard Time"@, "Australia/Perth"@)
    } else if i == 110 {
        ("Taipei Standard Time"@, "Asia/Taipei"@)
    } else if i == 111 {
        ("Ulaanbaatar Standard Time"@, "Asia/Ulaanbaatar"@)
    } else if i == 112 {
        ("Aus Central W. Standard Time"@, "Australia/Eucla"@)
    } else if i == 113 {
        ("Transbaikal Standard Time"@, "Asia/Chita"@)
    } else if i == 114 {
        ("Tokyo Standard Time"@, "Asia/Tokyo"@)
    } else if i == 115 {
        ("North Korea Standard Time"@, "Asia/Pyongyang"@)
    } else if i == 116 {
        ("Korea Standard Time"@, "Asia/Seoul"@)
    } else if i == 117 {
        ("Yakutsk Standard Time"@, "Asia/Yakutsk"@)
    } else if i == 118 {
        ("Cen. Australia Standard Time"@, "Australia/Adelaide"@)
    } else if i == 119 {
        ("AUS Central Standard Time"@, "Australia/Darwin"@)
    } else if i == 120 {
        ("E. Australia Standard Time"@, "Australia/Brisbane"@)
    } else if i == 121 {
        ("AUS Eastern Standard Time"@, "Australia/Sydney"@)
    } else if i == 122 {
        ("West Pacific Standard Time"@, "Pacific/Port_Moresby"@)
    } else if i == 123 {
        ("Tasmania Standard Time"@, "Australia/Hobart"@)
    } else if i == 124 {
        ("Vladivostok Standard Time"@, "Asia/Vladivostok"@)
    } else if i == 125 {
        ("Lord Howe Standard Time"@, "Australia/Lord_Howe"@)
    } else if i == 126 {
        ("Bougainville Standard Time"@, "Pacific/Bougainville"@)
    } else if i == 127 {
        ("Russia Time Zone 10"@, "Asia/Srednekolymsk"@)
    } else if i == 128 {
        ("Magadan Standard Time"@, "Asia/Magadan"@)
    } else if i == 129 {
        ("Norfolk Standard Time"@, "Pacific/Norfolk"@)
    } else if i == 130 {
        ("Sakhalin Standard Time"@, "Asia/Sakhalin"@)
    } else if i == 131 {
        ("Central Pacific Standard Time"@, "Pacific/Guadalcanal"@)
    } else if i == 132 {
        ("Russia Time Zone 11"@, "Asia/Kamchatka"@)
    } else if i == 133 {
        ("New Zealand Standard Time"@, "Pacific/Auckland"@)
    } else if i == 134 {
        ("UTC+12"@, "Etc/GMT-12"@)
    } else if i == 135 {
        ("Fiji Standard Time"@, "Pacific/Fiji"@)
    } else if i == 136 {
        ("Chatham Islands Standard Time"@, "Pacific/Chatham"@)
    } else if i == 137 {
        ("UTC+13"@, "Etc/GMT-13"@)
    } else if i == 138 {
        ("Tonga Standard Time"@, "Pacific/Tongatapu"@)
    } else if i == 139 {
        ("Samoa Standard Time"@, "Pacific/Apia"@)
    } else {
        ("Line Islands Standard Time"@, "Pacific/Kiritimati"@)
    }
}

pub fn windows_zone_at(i: usize) -> (r: (&'static str, &'static str))
    ensures
        (r.0@, r.1@) == windows_zone(i as int),
{
    if i == 0 {
        ("Dateline Standard Time", "Etc/GMT+12")
    } else if i == 1 {
        ("UTC-11", "Etc/GMT+11")
    } else if i == 2 {
        ("Aleutian Standard Time", "America/Adak")
    } else if i == 3 {
        ("Hawaiian Standard Time", "Pacific/Honolulu")
    } else if i == 4 {
        ("Marquesas Standard Time", "Pacific/Marquesas")
    } else if i == 5 {
        ("Alaskan Standard Time", "America/Anchorage")
    } else if i == 6 {
        ("UTC-09", "Etc/GMT+9")
    } else if i == 7 {
        ("Pacific Standard Time (Mexico)", "America/Tijuana")
    } else if i == 8 {
        ("UTC-08", "Etc/GMT+8")
    } else if i == 9 {
        ("Pacific Standard Time", "America/Los_Angeles")
    } else if i == 10 {
        ("US Mountain Standard Time", "America/Phoenix")
    } else if i == 11 {
        ("Mountain Standard Time (Mexico)", "America/Mazatlan")
    } else if i == 12 {
        ("Mountain Standard Time", "America/Denver")
    } else if i == 13 {
        ("Yukon Standard Time", "America/Whitehorse")
    } else if i == 14 {
        ("Central America Standard Time", "America/Guatemala")
    } else if i == 15 {
        ("Central Standard Time", "America/Chicago")
    } else if i == 16 {
        ("Easter Island Standard Time", "Pacific/Easter")
    } else if i == 17 {
        ("Central Standard Time (Mexico)", "America/Mexico_City")
    } else if i == 18 {
        ("Canada Central Standard Time", "America/Regina")
    } else if i == 19 {
        ("SA Pacific Standard Time", "America/Bogota")
    } else if i == 20 {
        ("Eastern Standard Time (Mexico)", "America/Cancun")
    } else if i == 21 {
        ("Eastern Standard Time", "America/New_York")
    } else if i == 22 {
        ("Haiti Standard Time", "America/Port-au-Prince")
    } else if i == 23 {
        ("Cuba Standard Time", "America/Havana")
    } else if i == 24 {
        ("US Eastern Standard Time", "America/Indiana/Indianapolis")
    } else if i == 25 {
        ("Turks And Caicos Standard Time", "America/Grand_Turk")
    } else if i == 26 {
        ("Paraguay Standard Time", "America/Asuncion")
    } else if i == 27 {
        ("Atlantic Standard Time", "America/Halifax")
    } else if i == 28 {
        ("Venezuela Standard Time", "America/Caracas")
    } else if i == 29 {
        ("Central Brazilian Standard Time", "America/Cuiaba")
    } else if i == 30 {
        ("SA Western Standard Time", "America/La_Paz")
    } else if i == 31 {
        ("Pacific SA Standard Time", "America/Santiago")
    } else if i == 32 {
        ("Newfoundland Standard Time", "America/St_Johns")
    } else if i == 33 {
        ("Tocantins Standard Time", "America/Araguaina")
    } else if i == 34 {
        ("E. South America Standard Time", "America/Sao_Paulo")
    } else if i == 35 {
        ("SA Eastern Standard Time", "America/Cayenne")
    } else if i == 36 {
        ("Argentina Standard Time", "America/Argentina/Buenos_Aires")
    } else if i == 37 {
        ("Greenland Standard Time", "America/Nuuk")
    } else if i == 38 {
        ("Montevideo Standard Time", "America/Montevideo")
    } else if i == 39 {
        ("Magallanes Standard Time", "America/Punta_Arenas")
    } else if i == 40 {
        ("Saint Pierre Standard Time", "America/Miquelon")
    } else if i == 41 {
        ("Bahia Standard Time", "America/Bahia")
    } else if i == 42 {
        ("UTC-02", "Etc/GMT+2")
    } else if i == 43 {
        ("Mid-Atlantic Standard Time", "Etc/GMT+2")
    } else if i == 44 {
        ("Azores Standard Time", "Atlantic/Azores")
    } else if i == 45 {
        ("Cape Verde Standard Time", "Atlantic/Cape_Verde")
    } else if i == 46 {
        ("UTC", "Etc/UTC")
    } else if i == 47 {
        ("Coordinated Universal Time", "Etc/UTC")
    } else if i == 48 {
        ("GMT Standard Time", "Europe/London")
    } else if i == 49 {
        ("Greenwich Standard Time", "Atlantic/Reykjavik")
    } else if i == 50 {
        ("Sao Tome Standard Time", "Africa/Sao_Tome")
    } else if i == 51 {
        ("Morocco Standard Time", "Africa/Casablanca")
    } else if i == 52 {
        ("W. Europe Standard Time", "Europe/Berlin")
    } else if i == 53 {
        ("Central Europe Standard Time", "Europe/Budapest")
    } else if i == 54 {
        ("Romance Standard Time", "Europe/Paris")
    } else if i == 55 {
        ("Central European Standard Time", "Europe/Warsaw")
    } else if i == 56 {
        ("W. Central Africa Standard Time", "Africa/Lagos")
    } else if i == 57 {
        ("Jordan Standard Time", "Asia/Amman")
    } else if i == 58 {
        ("GTB Standard Time", "Europe/Bucharest")
    } else if i == 59 {
        ("Middle East Standard Time", "Asia/Beirut")
    } else if i == 60 {
        ("Egypt Standard Time", "Africa/Cairo")
    } else if i == 61 {
        ("E. Europe Standard Time", "Europe/Chisinau")
    } else if i == 62 {
        ("Syria Standard Time", "Asia/Damascus")
    } else if i == 63 {
        ("West Bank Standard Time", "Asia/Hebron")
    } else if i == 64 {
        ("South Africa Standard Time", "Africa/Johannesburg")
    } else if i == 65 {
        ("FLE Standard Time", "Europe/Kyiv")
    } else if i == 66 {
        ("Israel Standard Time", "Asia/Jerusalem")
    } else if i == 67 {
        ("South Sudan Standard Time", "Africa/Juba")
    } else if i == 68 {
        ("Kaliningrad Standard Time", "Europe/Kaliningrad")
    } else if i == 69 {
        ("Sudan Standard Time", "Africa/Khartoum")
    } else if i == 70 {
        ("Libya Standard Time", "Africa/Tripoli")
    } else if i == 71 {
        ("Namibia Standard Time", "Africa/Windhoek")
    } else if i == 72 {
        ("Arabic Standard Time", "Asia/Baghdad")
    } else if i == 73 {
        ("Turkey Standard Time", "Europe/Istanbul")
    } else if i == 74 {
        ("Arab Standard Time", "Asia/Riyadh")
    } else if i == 75 {
        ("Belarus Standard Time", "Europe/Minsk")
    } else if i == 76 {
        ("Russian Standard Time", "Europe/Moscow")
    } else if i == 77 {
        ("E. Africa Standard Time", "Africa/Nairobi")
    } else if i == 78 {
        ("Volgograd Standard Time", "Europe/Volgograd")
    } else if i == 79 {
        ("Iran Standard Time", "Asia/Tehran")
    } else if i == 80 {
        ("Arabian Standard Time", "Asia/Dubai")
    } else if i == 81 {
        ("Astrakhan Standard Time", "Europe/Astrakhan")
    } else if i == 82 {
        ("Azerbaijan Standard Time", "Asia/Baku")
    } else if i == 83 {
        ("Russia Time Zone 3", "Europe/Samara")
    } else if i == 84 {
        ("Mauritius Standard Time", "Indian/Mauritius")
    } else if i == 85 {
        ("Saratov Standard Time", "Europe/Saratov")
    } else if i == 86 {
        ("Georgian Standard Time", "Asia/Tbilisi")
    } else if i == 87 {
        ("Caucasus Standard Time", "Asia/Yerevan")
    } else if i == 88 {
        ("Afghanistan Standard Time", "Asia/Kabul")
    } else if i == 89 {
        ("West Asia Standard Time", "Asia/Tashkent")
    } else if i == 90 {
        ("Ekaterinburg Standard Time", "Asia/Yekaterinburg")
    } else if i == 91 {
        ("Pakistan Standard Time", "Asia/Karachi")
    } else if i == 92 {
        ("Qyzylorda Standard Time", "Asia/Qyzylorda")
    } else if i == 93 {
        ("India Standard Time", "Asia/Kolkata")
    } else if i == 94 {
        ("Sri Lanka Standard Time", "Asia/Colombo")
    } else if i == 95 {
        ("Nepal Standard Time", "Asia/Kathmandu")
    } else if i == 96 {
        ("Central Asia Standard Time", "Asia/Bishkek")
    } else if i == 97 {
        ("Bangladesh Standard Time", "Asia/Dhaka")
    } else if i == 98 {
        ("Omsk Standard Time", "Asia/Omsk")
    } else if i == 99 {
        ("Myanmar Standard Time", "Asia/Yangon")
    } else if i == 100 {
        ("SE Asia Standard Time", "Asia/Bangkok")
    } else if i == 101 {
        ("Altai Standard Time", "Asia/Barnaul")
    } else if i == 102 {
        ("W. Mongolia Standard Time", "Asia/Hovd")
    } else if i == 103 {
        ("North Asia Standard Time", "Asia/Krasnoyarsk")
    } else if i == 104 {
        ("N. Central Asia Standard Time", "Asia/Novosibirsk")
    } else if i == 105 {
        ("Tomsk Standard Time", "Asia/Tomsk")
    } else if i == 106 {
        ("China Standard Time", "Asia/Shanghai")
    } else if i == 107 {
        ("North Asia East Standard Time", "Asia/Irkutsk")
    } else if i == 108 {
        ("Singapore Standard Time", "Asia/Singapore")
    } else if i == 109 {
        ("W. Australia Standard Time", "Australia/Perth")
    } else if i == 110 {
        ("Taipei Standard Time", "Asia/Taipei")
    } else if i == 111 {
        ("Ulaanbaatar Standard Time", "Asia/Ulaanbaatar")
    } else if i == 112 {
        ("Aus Central W. Standard Time", "Australia/Eucla")
    } else if i == 113 {
        ("Transbaikal Standard Time", "Asia/Chita")
    } else if i == 114 {
        ("Tokyo Standard Time", "Asia/Tokyo")
    } else if i == 115 {
        ("North Korea Standard Time", "Asia/Pyongyang")
    } else if i == 116 {
        ("Korea Standard Time", "Asia/Seoul")
    } else if i == 117 {
        ("Yakutsk Standard Time", "Asia/Yakutsk")
    } else if i == 118 {
        ("Cen. Australia Standard Time", "Australia/Adelaide")
    } else if i == 119 {
        ("AUS Central Standard Time", "Australia/Darwin")
    } else if i == 120 {
        ("E. Australia Standard Time", "Australia/Brisbane")
    } else if i == 121 {
        ("AUS Eastern Standard Time", "Australia/Sydney")
    } else if i == 122 {
        ("West Pacific Standard Time", "Pacific/Port_Moresby")
    } else if i == 123 {
        ("Tasmania Standard Time", "Australia/Hobart")
    } else if i == 124 {
        ("Vladivostok Standard Time", "Asia/Vladivostok")
    } else if i == 125 {
        ("Lord Howe Standard Time", "Australia/Lord_Howe")
    } else if i == 126 {
        ("Bougainville Standard Time", "Pacific/Bougainville")
    } else if i == 127 {
        ("Russia Time Zone 10", "Asia/Srednekolymsk")
    } else if i == 128 {
        ("Magadan Standard Time", "Asia/Magadan")
    } else if i == 129 {
        ("Norfolk Standard Time", "Pacific/Norfolk")
    } else if i == 130 {
        ("Sakhalin Standard Time", "Asia/Sakhalin")
    } else if i == 131 {
        ("Central Pacific Standard Time", "Pacific/Guadalcanal")
    } else if i == 132 {
        ("Russia Time Zone 11", "Asia/Kamchatka")
    } else if i == 133 {
        ("New Zealand Standard Time", "Pacific/Auckland")
    } else if i == 134 {
        ("UTC+12", "Etc/GMT-12")
    } else if i == 135 {
        ("Fiji Standard Time", "Pacific/Fiji")
    } else if i == 136 {
        ("Chatham Islands Standard Time", "Pacific/Chatham")
    } else if i == 137 {
        ("UTC+13", "Etc/GMT-13")
    } else if i == 138 {
        ("Tonga Standard Time", "Pacific/Tongatapu")
    } else if i == 139 {
        ("Samoa Standard Time", "Pacific/Apia")
    } else {
        ("Line Islands Standard Time", "Pacific/Kiritimati")
    }
}

} // verus!
